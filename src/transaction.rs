//! The transaction lifecycle: prepare and commit phases of a two-phase commit.
use vstd::prelude::*;
use crate::participant::{
    appended_calls, call_for, lemma_append_call, lemma_no_calls, never_fails, new_records, participant_call,
    CallRecord, Participants,
};
use crate::types::{
    find_operation, first_with_id, has_id, operation_copy, unique_operation_ids, ParticipantCall, TransactionError, TransactionLog, TransactionOperation,
    TransactionPhase,
};
use crate::validation::{operation_valid, validate_transaction_operation};

verus! {

pub open spec fn with_prepared(op: TransactionOperation) -> TransactionOperation {
    TransactionOperation { prepared: true, ..op }
}

pub open spec fn with_committed(op: TransactionOperation) -> TransactionOperation {
    TransactionOperation { committed: true, ..op }
}

pub open spec fn with_error(op: TransactionOperation, e: String) -> TransactionOperation {
    TransactionOperation { error: Some(e), ..op }
}

/// What a forward phase marks on an operation whose call succeeded.
pub open spec fn advance(op: TransactionOperation, commit: bool) -> TransactionOperation {
    if commit {
        with_committed(op)
    } else {
        with_prepared(op)
    }
}

pub open spec fn phase_prefix(commit: bool) -> Seq<char> {
    if commit {
        "commit_"@
    } else {
        "prepare_"@
    }
}

/// The number of operations a forward phase stopping at `k` has called:
/// all of them, or those up to and including the failing one.
pub open spec fn called_count(n: int, k: int) -> int {
    if k < n {
        k + 1
    } else {
        n
    }
}

/// A forward phase over `old_ops` that handed the participants exactly one
/// call per operation `0..=k` (or `0..k` when `k == len`), in list order and
/// nothing else; the first `k` succeeded and, when `k < len`, the call of
/// operation `k` failed and its error was recorded on it. Operations after `k`
/// are left as they were and never called.
pub open spec fn phase_ran<F: Fn(ParticipantCall) -> Result<(), String>>(
    invoke: F,
    commit: bool,
    old_ops: Seq<TransactionOperation>,
    new_ops: Seq<TransactionOperation>,
    old_h: Seq<CallRecord>,
    new_h: Seq<CallRecord>,
    k: int,
) -> bool {
    &&& 0 <= k <= old_ops.len()
    &&& new_ops.len() == old_ops.len()
    &&& appended_calls(
        invoke,
        old_h,
        new_h,
        old_ops.subrange(0, called_count(old_ops.len() as int, k)),
        phase_prefix(commit),
    )
    &&& forall|i: int| 0 <= i < k ==> (#[trigger] new_records(old_h, new_h)[i]).1 is Ok
    &&& forall|i: int| 0 <= i < k ==> #[trigger] new_ops[i] == advance(old_ops[i], commit)
    &&& forall|i: int| k < i < old_ops.len() ==> #[trigger] new_ops[i] == old_ops[i]
    &&& k < old_ops.len() ==> {
        &&& new_records(old_h, new_h)[k].1 is Err
        &&& new_ops[k] == with_error(old_ops[k], new_records(old_h, new_h)[k].1->Err_0)
    }
}

/// The status word of an operation.
pub open spec fn operation_status(op: TransactionOperation) -> Seq<char> {
    if op.committed {
        "committed"@
    } else if op.prepared {
        "prepared"@
    } else if op.error is Some {
        "failed"@
    } else {
        "pending"@
    }
}

/// The operations that carry an error, in order.
pub open spec fn failed_operations(ops: Seq<TransactionOperation>) -> Seq<TransactionOperation>
    decreases ops.len(),
{
    if ops.len() == 0 {
        Seq::empty()
    } else {
        let rest = failed_operations(ops.drop_last());
        if ops.last().error is Some {
            rest.push(ops.last())
        } else {
            rest
        }
    }
}

/// The fields that neither phase changes.
pub open spec fn same_header(a: TransactionLog, b: TransactionLog) -> bool {
    &&& a.transaction_id == b.transaction_id
    &&& a.initiator == b.initiator
    &&& a.created_at == b.created_at
    &&& a.timeout_seconds == b.timeout_seconds
    &&& a.error == b.error
}

pub open spec fn all_prepared(ops: Seq<TransactionOperation>) -> bool {
    forall|i: int| 0 <= i < ops.len() ==> (#[trigger] ops[i]).prepared
}

/// What `prepare_phase` does to a log and to the call history, given how
/// the participants answered.
pub open spec fn prepare_post<F: Fn(ParticipantCall) -> Result<(), String>>(
    invoke: F,
    now: u64,
    old: TransactionLog,
    new: TransactionLog,
    old_h: Seq<CallRecord>,
    new_h: Seq<CallRecord>,
    r: Result<(), TransactionError>,
) -> bool {
    if old.phase != TransactionPhase::Initiated {
        r == Err::<(), TransactionError>(TransactionError::InvalidPhase) && new == old && new_h == old_h
    } else {
        exists|k: int|
            #[trigger] phase_ran(invoke, false, old.operations@, new.operations@, old_h, new_h, k)
                && same_header(old, new) && if k == old.operations@.len() {
                &&& r == Ok::<(), TransactionError>(())
                &&& new.phase == TransactionPhase::Prepared
                &&& new.updated_at == now
            } else {
                &&& r == Err::<(), TransactionError>(TransactionError::ContractCallFailed)
                &&& new.phase == TransactionPhase::Preparing
                &&& new.updated_at == old.updated_at
            }
    }
}

/// What `commit_phase` does to a log and to the call history, given how the
/// participants answered.
pub open spec fn commit_post<F: Fn(ParticipantCall) -> Result<(), String>>(
    invoke: F,
    now: u64,
    old: TransactionLog,
    new: TransactionLog,
    old_h: Seq<CallRecord>,
    new_h: Seq<CallRecord>,
    r: Result<(), TransactionError>,
) -> bool {
    if old.phase != TransactionPhase::Prepared || !all_prepared(old.operations@) {
        r == Err::<(), TransactionError>(TransactionError::InvalidPhase) && new == old && new_h == old_h
    } else {
        exists|k: int|
            #[trigger] phase_ran(invoke, true, old.operations@, new.operations@, old_h, new_h, k)
                && same_header(old, new) && new.phase == old.phase && if k == old.operations@.len() {
                &&& r == Ok::<(), TransactionError>(())
                &&& new.updated_at == now
            } else {
                &&& r == Err::<(), TransactionError>(TransactionError::ContractCallFailed)
                &&& new.updated_at == old.updated_at
            }
    }
}

/// Drives the two-phase commit protocol for a transaction log.
pub struct TransactionManager {
    /// The current ledger time, stamped on logs that a phase completes.
    pub now: u64,
}

impl TransactionManager {
    pub fn new(now: u64) -> (r: Self)
        ensures
            r.now == now,
    {
        TransactionManager { now }
    }

    /// Calls every operation's entry point under the phase's prefix, in list
    /// order, stopping at the first failure, and marks each success with
    /// `advance`.
    fn run_phase<F: Fn(ParticipantCall) -> Result<(), String>>(
        log: &mut TransactionLog,
        commit: bool,
        participants: &mut Participants<F>,
    ) -> (k: usize)
        requires
            old(participants).ready(),
        ensures
            phase_ran(
                old(participants).invoker(),
                commit,
                old(log).operations@,
                final(log).operations@,
                old(participants).history(),
                final(participants).history(),
                k as int,
            ),
            final(participants).invoker() == old(participants).invoker(),
            final(log).phase == old(log).phase,
            final(log).updated_at == old(log).updated_at,
            same_header(*old(log), *final(log)),
    {
        let prefix: &str = if commit {
            "commit_"
        } else {
            "prepare_"
        };
        let ghost old_ops = log.operations@;
        let ghost invoke = participants.invoker();
        let ghost h0 = participants.history();
        let n = log.operations.len();
        proof {
            lemma_no_calls(invoke, h0, prefix@);
            assert(old_ops.subrange(0, 0) =~= Seq::<TransactionOperation>::empty());
        }
        let mut i: usize = 0;
        while i < n
            invariant
                prefix@ == phase_prefix(commit),
                old_ops == old(log).operations@,
                invoke == participants.invoker(),
                invoke == old(participants).invoker(),
                h0 == old(participants).history(),
                participants.ready(),
                n == old_ops.len(),
                log.operations@.len() == n,
                i <= n,
                appended_calls(invoke, h0, participants.history(), old_ops.subrange(0, i as int), prefix@),
                forall|j: int| 0 <= j < i ==> (#[trigger] new_records(h0, participants.history())[j]).1 is Ok,
                forall|j: int| 0 <= j < i ==> #[trigger] log.operations@[j] == advance(old_ops[j], commit),
                forall|j: int| i <= j < n ==> #[trigger] log.operations@[j] == old_ops[j],
                log.phase == old(log).phase,
                log.updated_at == old(log).updated_at,
                same_header(*old(log), *log),
            decreases n - i,
        {
            let call = participant_call(prefix, &log.operations[i]);
            let ghost c = call;
            let ghost before = participants.history();
            let outcome = participants.call(call);
            proof {
                lemma_append_call(invoke, h0, before, old_ops, i as int, prefix@, (c, outcome));
            }
            let mut op = log.operations.remove(i);
            match outcome {
                Ok(()) => {
                    if commit {
                        op.committed = true;
                    } else {
                        op.prepared = true;
                    }
                    log.operations.insert(i, op);
                    proof {
                        assert forall|j: int|
                            0 <= j < i + 1 implies (#[trigger] new_records(h0, participants.history())[j]).1 is Ok by {
                            if j < i {
                                assert(new_records(h0, participants.history())[j] == new_records(h0, before)[j]);
                            }
                        }
                        assert forall|j: int|
                            0 <= j < i + 1 implies #[trigger] log.operations@[j] == advance(old_ops[j], commit) by {
                        }
                    }
                },
                Err(e) => {
                    let ghost err = e;
                    op.error = Some(e);
                    log.operations.insert(i, op);
                    proof {
                        let nr = new_records(h0, participants.history());
                        assert(nr[i as int].1 == Err::<(), String>(err));
                        assert forall|j: int| 0 <= j < i implies (#[trigger] nr[j]).1 is Ok by {
                            assert(nr[j] == new_records(h0, before)[j]);
                        }
                        assert(log.operations@[i as int] == with_error(old_ops[i as int], err));
                        assert(forall|j: int| i < j < n ==> #[trigger] log.operations@[j] == old_ops[j]);
                        assert(called_count(n as int, i as int) == i + 1);
                        assert(phase_ran(invoke, commit, old_ops, log.operations@, h0, participants.history(), i as int));
                    }
                    return i;
                },
            }
            i += 1;
        }
        proof {
            assert(old_ops.subrange(0, n as int) =~= old_ops);
            assert(called_count(n as int, n as int) == n);
        }
        n
    }

    proof fn lemma_phase_keeps_wf<F: Fn(ParticipantCall) -> Result<(), String>>(
        invoke: F,
        commit: bool,
        old_log: TransactionLog,
        new_log: TransactionLog,
        old_h: Seq<CallRecord>,
        new_h: Seq<CallRecord>,
        k: int,
    )
        requires
            phase_ran(invoke, commit, old_log.operations@, new_log.operations@, old_h, new_h, k),
            commit ==> all_prepared(old_log.operations@),
        ensures
            old_log.wf() ==> new_log.wf(),
    {
        if old_log.wf() {
            assert forall|i: int| 0 <= i < new_log.operations@.len() implies (
            #[trigger] new_log.operations@[i]).wf() by {
                assert(old_log.operations@[i].wf());
                if i < k {
                    assert(new_log.operations@[i] == advance(old_log.operations@[i], commit));
                    if commit {
                        assert(old_log.operations@[i].prepared);
                    }
                }
            }
        }
    }

    /// The prepare phase: from `Initiated`, calls every operation's prepare
    /// entry point in list order. On the first failure the operation's error
    /// is recorded and the phase stops with `ContractCallFailed`, leaving the
    /// log in `Preparing`; later operations are not called, and nothing is
    /// rolled back. Otherwise the log moves to `Prepared`. From any other
    /// phase no call is made.
    pub fn prepare_phase<F: Fn(ParticipantCall) -> Result<(), String>>(
        &self,
        log: &mut TransactionLog,
        participants: &mut Participants<F>,
    ) -> (r: Result<(), TransactionError>)
        requires
            old(participants).ready(),
        ensures
            prepare_post(
                old(participants).invoker(),
                self.now,
                *old(log),
                *final(log),
                old(participants).history(),
                final(participants).history(),
                r,
            ),
            final(participants).invoker() == old(participants).invoker(),
            old(log).wf() ==> final(log).wf(),
    {
        if log.phase != TransactionPhase::Initiated {
            return Err(TransactionError::InvalidPhase);
        }
        log.phase = TransactionPhase::Preparing;
        let k = Self::run_phase(log, false, participants);
        let ghost invoke = old(participants).invoker();
        let ghost h0 = old(participants).history();
        proof {
            Self::lemma_phase_keeps_wf(invoke, false, *old(log), *log, h0, participants.history(), k as int);
        }
        if k == log.operations.len() {
            log.phase = TransactionPhase::Prepared;
            log.updated_at = self.now;
            assert(phase_ran(invoke, false, old(log).operations@, log.operations@, h0, participants.history(), k as int));
            Ok(())
        } else {
            assert(phase_ran(invoke, false, old(log).operations@, log.operations@, h0, participants.history(), k as int));
            Err(TransactionError::ContractCallFailed)
        }
    }

    /// The commit phase: from `Prepared`, with every operation prepared,
    /// calls every operation's commit entry point in list order. On the first
    /// failure the operation's error is recorded and the phase stops with
    /// `ContractCallFailed`, leaving later operations uncommitted and
    /// uncalled. The phase stays `Prepared`: moving to `Committed` is the
    /// caller's step. Otherwise no call is made.
    pub fn commit_phase<F: Fn(ParticipantCall) -> Result<(), String>>(
        &self,
        log: &mut TransactionLog,
        participants: &mut Participants<F>,
    ) -> (r: Result<(), TransactionError>)
        requires
            old(participants).ready(),
        ensures
            commit_post(
                old(participants).invoker(),
                self.now,
                *old(log),
                *final(log),
                old(participants).history(),
                final(participants).history(),
                r,
            ),
            final(participants).invoker() == old(participants).invoker(),
            old(log).wf() ==> final(log).wf(),
    {
        if log.phase != TransactionPhase::Prepared || !Self::operations_prepared(&log.operations) {
            return Err(TransactionError::InvalidPhase);
        }
        let k = Self::run_phase(log, true, participants);
        let ghost invoke = old(participants).invoker();
        let ghost h0 = old(participants).history();
        proof {
            Self::lemma_phase_keeps_wf(invoke, true, *old(log), *log, h0, participants.history(), k as int);
        }
        assert(phase_ran(invoke, true, old(log).operations@, log.operations@, h0, participants.history(), k as int));
        if k == log.operations.len() {
            log.updated_at = self.now;
            assert(phase_ran(invoke, true, old(log).operations@, log.operations@, h0, participants.history(), k as int));
            Ok(())
        } else {
            Err(TransactionError::ContractCallFailed)
        }
    }

    /// Checks an operation list before it affects any state: it must be
    /// non-empty, its operation ids unique, and every operation valid on its
    /// own fields.
    pub fn validate_transaction(&self, operations: &Vec<TransactionOperation>) -> (r: Result<
        (),
        TransactionError,
    >)
        ensures
            r == crate::validation::check(
                operations@.len() > 0 && unique_operation_ids(operations@) && forall|i: int|
                    0 <= i < operations@.len() ==> operation_valid(#[trigger] operations@[i]),
                TransactionError::InvalidInput,
            ),
            1 <= operations@.len() <= 50 && unique_operation_ids(operations@) ==> (r is Ok
                <==> forall|i: int|
                0 <= i < operations@.len() ==> operation_valid(#[trigger] operations@[i])),
    {
        if operations.is_empty() {
            return Err(TransactionError::InvalidInput);
        }
        let n = operations.len();
        let mut i: usize = 0;
        while i < n
            invariant
                n == operations@.len(),
                i <= n,
                forall|a: int, b: int|
                    0 <= a < i && 0 <= b < i && a != b ==> #[trigger] operations@[a].operation_id
                        != #[trigger] operations@[b].operation_id,
            decreases n - i,
        {
            let mut j: usize = 0;
            while j < i
                invariant
                    n == operations@.len(),
                    i < n,
                    j <= i,
                    forall|a: int, b: int|
                        0 <= a < i && 0 <= b < i && a != b ==> #[trigger] operations@[a].operation_id
                            != #[trigger] operations@[b].operation_id,
                    forall|a: int|
                        0 <= a < j ==> #[trigger] operations@[a].operation_id
                            != operations@[i as int].operation_id,
                decreases i - j,
            {
                if operations[j].operation_id == operations[i].operation_id {
                    assert(!unique_operation_ids(operations@)) by {
                        assert(operations@[j as int].operation_id == operations@[i as int].operation_id);
                    }
                    return Err(TransactionError::InvalidInput);
                }
                j += 1;
            }
            i += 1;
        }
        let mut i: usize = 0;
        while i < n
            invariant
                n == operations@.len(),
                i <= n,
                unique_operation_ids(operations@),
                operations@.len() > 0,
                forall|k: int| 0 <= k < i ==> operation_valid(#[trigger] operations@[k]),
            decreases n - i,
        {
            let op = &operations[i];
            validate_transaction_operation(
                op.operation_id,
                &op.contract_address,
                &op.function_name,
                &op.parameters,
                &op.locked_resources,
            )?;
            i += 1;
        }
        Ok(())
    }

    /// The status of the first operation with id `operation_id`:
    /// `committed`, `prepared`, `failed` (it carries an error) or `pending`.
    pub fn get_operation_status(&self, log: Option<&TransactionLog>, operation_id: u64) -> (r: Result<String, TransactionError>)
        ensures
            match log {
                None => r is Err && r->Err_0 == TransactionError::TransactionNotFound,
                Some(l) => if has_id(l.operations@, operation_id) {
                    r is Ok && exists|i: int| #[trigger] first_with_id(l.operations@, operation_id, i)
                        && r->Ok_0@ == operation_status(l.operations@[i])
                } else {
                    r is Err && r->Err_0 == TransactionError::OperationNotFound
                },
            },
    {
        let entry = match log {
            None => {
                return Err(TransactionError::TransactionNotFound);
            },
            Some(l) => l,
        };
        match find_operation(&entry.operations, operation_id) {
            None => Err(TransactionError::OperationNotFound),
            Some(i) => {
                let operation = &entry.operations[i];
                assert(first_with_id(entry.operations@, operation_id, i as int));
                if operation.committed {
                    Ok(String::from_str("committed"))
                } else if operation.prepared {
                    Ok(String::from_str("prepared"))
                } else if operation.error.is_some() {
                    Ok(String::from_str("failed"))
                } else {
                    Ok(String::from_str("pending"))
                }
            },
        }
    }

    /// Copies of the operations that carry an error, in order.
    pub fn get_failed_operations(&self, log: Option<&TransactionLog>) -> (r: Result<Vec<TransactionOperation>, TransactionError>)
        ensures
            match log {
                None => r is Err && r->Err_0 == TransactionError::TransactionNotFound,
                Some(l) => r is Ok && r->Ok_0@.len() == failed_operations(l.operations@).len()
                    && forall|i: int|
                    0 <= i < r->Ok_0@.len() ==> operation_copy(
                        #[trigger] r->Ok_0@[i],
                        failed_operations(l.operations@)[i],
                    ),
            },
    {
        let entry = match log {
            None => {
                return Err(TransactionError::TransactionNotFound);
            },
            Some(l) => l,
        };
        let ghost ops = entry.operations@;
        let mut failed: Vec<TransactionOperation> = Vec::new();
        let mut i: usize = 0;
        while i < entry.operations.len()
            invariant
                ops == entry.operations@,
                i <= ops.len(),
                failed@.len() == failed_operations(ops.subrange(0, i as int)).len(),
                forall|j: int|
                    0 <= j < failed@.len() ==> operation_copy(
                        #[trigger] failed@[j],
                        failed_operations(ops.subrange(0, i as int))[j],
                    ),
            decreases ops.len() - i,
        {
            assert(ops.subrange(0, i + 1).drop_last() =~= ops.subrange(0, i as int));
            if entry.operations[i].error.is_some() {
                let copy = entry.operations[i].duplicate();
                failed.push(copy);
            }
            i += 1;
        }
        assert(ops.subrange(0, i as int) =~= ops);
        Ok(failed)
    }

    fn operations_prepared(ops: &Vec<TransactionOperation>) -> (r: bool)
        ensures
            r == all_prepared(ops@),
    {
        let mut i: usize = 0;
        while i < ops.len()
            invariant
                i <= ops@.len(),
                forall|j: int| 0 <= j < i ==> (#[trigger] ops@[j]).prepared,
            decreases ops@.len() - i,
        {
            if !ops[i].prepared {
                return false;
            }
            i += 1;
        }
        true
    }

    /// True iff the log is `Prepared` and every operation is prepared.
    pub fn can_commit(&self, log: &TransactionLog) -> (r: bool)
        ensures
            r == (log.phase == TransactionPhase::Prepared && all_prepared(log.operations@)),
    {
        match log.phase {
            TransactionPhase::Prepared => Self::operations_prepared(&log.operations),
            _ => false,
        }
    }
}

/// Preparing and then committing a fresh log (no operation carries an error)
/// whose participants all answer successfully succeeds in both phases, makes
/// one prepare call and then one commit call per operation, in list order,
/// and leaves every operation committed and without an error.
pub proof fn lemma_prepare_then_commit<F: Fn(ParticipantCall) -> Result<(), String>>(
    invoke: F,
    prepared_at: u64,
    committed_at: u64,
    initial: TransactionLog,
    prepared: TransactionLog,
    committed: TransactionLog,
    h0: Seq<CallRecord>,
    h1: Seq<CallRecord>,
    h2: Seq<CallRecord>,
    prepare_result: Result<(), TransactionError>,
    commit_result: Result<(), TransactionError>,
)
    requires
        initial.phase == TransactionPhase::Initiated,
        forall|i: int|
            0 <= i < initial.operations@.len() ==> (#[trigger] initial.operations@[i]).error is None,
        never_fails(invoke),
        prepare_post(invoke, prepared_at, initial, prepared, h0, h1, prepare_result),
        commit_post(invoke, committed_at, prepared, committed, h1, h2, commit_result),
    ensures
        prepare_result is Ok,
        commit_result is Ok,
        appended_calls(invoke, h0, h1, initial.operations@, "prepare_"@),
        appended_calls(invoke, h1, h2, initial.operations@, "commit_"@),
        committed.phase == TransactionPhase::Prepared,
        committed.operations@.len() == initial.operations@.len(),
        forall|i: int|
            0 <= i < committed.operations@.len() ==> (#[trigger] committed.operations@[i]).committed
                && committed.operations@[i].prepared && committed.operations@[i].error is None,
{
    let ops = initial.operations@;
    let n = ops.len() as int;
    let k = choose|k: int|
        #[trigger] phase_ran(invoke, false, ops, prepared.operations@, h0, h1, k)
            && same_header(initial, prepared) && if k == n {
            &&& prepare_result == Ok::<(), TransactionError>(())
            &&& prepared.phase == TransactionPhase::Prepared
            &&& prepared.updated_at == prepared_at
        } else {
            &&& prepare_result == Err::<(), TransactionError>(TransactionError::ContractCallFailed)
            &&& prepared.phase == TransactionPhase::Preparing
            &&& prepared.updated_at == initial.updated_at
        };
    if k < n {
        let rec = new_records(h0, h1)[k];
        assert(call_ensures(invoke, (rec.0,), rec.1));
        assert(false);
    }
    assert(ops.subrange(0, n) =~= ops);
    let p = prepared.operations@;
    assert(all_prepared(p)) by {
        assert forall|i: int| 0 <= i < p.len() implies (#[trigger] p[i]).prepared by {
            assert(p[i] == advance(ops[i], false));
        }
    }
    let m = choose|m: int|
        #[trigger] phase_ran(invoke, true, p, committed.operations@, h1, h2, m) && same_header(
            prepared,
            committed,
        ) && committed.phase == prepared.phase && if m == n {
            &&& commit_result == Ok::<(), TransactionError>(())
            &&& committed.updated_at == committed_at
        } else {
            &&& commit_result == Err::<(), TransactionError>(TransactionError::ContractCallFailed)
            &&& committed.updated_at == prepared.updated_at
        };
    if m < n {
        let rec = new_records(h1, h2)[m];
        assert(call_ensures(invoke, (rec.0,), rec.1));
        assert(false);
    }
    assert(p.subrange(0, n) =~= p);
    assert forall|i: int| 0 <= i < n implies call_for(
        (#[trigger] new_records(h1, h2)[i]).0,
        ops[i],
        "commit_"@,
    ) && call_ensures(invoke, (new_records(h1, h2)[i].0,), new_records(h1, h2)[i].1) by {
        assert(p[i] == advance(ops[i], false));
        assert(call_for(new_records(h1, h2)[i].0, p[i], "commit_"@));
    }
    assert forall|i: int| 0 <= i < committed.operations@.len() implies (
    #[trigger] committed.operations@[i]).committed && committed.operations@[i].prepared
        && committed.operations@[i].error is None by {
        assert(committed.operations@[i] == advance(p[i], true));
        assert(p[i] == advance(ops[i], false));
    }
}

} // verus!
