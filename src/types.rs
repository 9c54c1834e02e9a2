use vstd::prelude::*;

verus! {

/// The lifecycle state of a transaction.
#[derive(Clone, Copy, Debug, PartialEq, Eq, Structural)]
pub enum TransactionPhase {
    Initiated,
    Preparing,
    Prepared,
    Committed,
    RolledBack,
    TimedOut,
}

/// The errors that orchestration reports.
#[derive(Clone, Copy, Debug, PartialEq, Eq, Structural)]
pub enum TransactionError {
    /// Malformed or out-of-range request data.
    InvalidInput,
    /// An operation attempted from a state that forbids it.
    InvalidPhase,
    /// The caller lacks the required authority.
    Unauthorized,
    /// A participant's prepare or commit call failed.
    ContractCallFailed,
    /// One or more compensating calls failed during an unwind.
    RollbackFailed,
    /// No transaction with the requested id.
    TransactionNotFound,
    /// No operation with the requested id.
    OperationNotFound,
}

/// The category of a participant.
#[derive(Clone, Copy, Debug, PartialEq, Eq, Structural)]
pub enum ContractType {
    Identity,
    VisionRecords,
    ZkVerifier,
}

/// One unit of work against one participant.
#[derive(Debug)]
pub struct TransactionOperation {
    pub operation_id: u64,
    pub contract_type: ContractType,
    /// The participant's identity; empty when it cannot be resolved.
    pub contract_address: String,
    pub function_name: String,
    pub parameters: Vec<String>,
    /// Resources this operation holds for the transaction's lifetime.
    pub locked_resources: Vec<String>,
    pub prepared: bool,
    pub committed: bool,
    pub error: Option<String>,
}

/// The record of one orchestrated transaction.
#[derive(Debug)]
pub struct TransactionLog {
    pub transaction_id: u64,
    pub initiator: String,
    pub phase: TransactionPhase,
    pub operations: Vec<TransactionOperation>,
    pub created_at: u64,
    pub updated_at: u64,
    pub timeout_seconds: u64,
    pub error: Option<String>,
}

impl TransactionLog {
    /// Every operation of the log is well formed.
    pub open spec fn wf(&self) -> bool {
        forall|i: int| 0 <= i < self.operations@.len() ==> (#[trigger] self.operations@[i]).wf()
    }
}

/// A deadlock found by the detector: the chosen victim and the whole cycle.
#[derive(Debug)]
pub struct DeadlockInfo {
    pub transaction_id: u64,
    pub conflicting_transactions: Vec<u64>,
    pub conflicting_resources: Vec<String>,
    pub detected_at: u64,
}

/// The outcome of rolling back one operation.
#[derive(Debug)]
pub struct RollbackInfo {
    pub transaction_id: u64,
    pub operation_id: u64,
    pub contract_address: String,
    pub rollback_function: String,
    pub rollback_parameters: Vec<String>,
    pub rollback_successful: bool,
    pub rollback_error: Option<String>,
}

/// Timeout configuration: a default, a maximum, and per-category overrides.
#[derive(Debug)]
pub struct TransactionTimeoutConfig {
    pub default_timeout: u64,
    pub max_timeout: u64,
    pub contract_timeouts: Vec<(ContractType, u64)>,
}

/// A call to one participant entry point.
#[derive(Debug)]
pub struct ParticipantCall {
    pub contract_address: String,
    pub entry_point: String,
    pub parameters: Vec<String>,
}

impl TransactionOperation {
    /// Only a prepared operation can be committed.
    pub open spec fn wf(&self) -> bool {
        self.committed ==> self.prepared
    }

    /// The operation may be undone: it was prepared and not committed.
    pub open spec fn rollback_eligible(&self) -> bool {
        self.prepared && !self.committed
    }

    /// A field-by-field copy of the operation.
    pub fn duplicate(&self) -> (r: Self)
        ensures
            operation_copy(r, *self),
    {
        TransactionOperation {
            operation_id: self.operation_id,
            contract_type: self.contract_type,
            contract_address: self.contract_address.clone(),
            function_name: self.function_name.clone(),
            parameters: copy_strings(&self.parameters),
            locked_resources: copy_strings(&self.locked_resources),
            prepared: self.prepared,
            committed: self.committed,
            error: match &self.error {
                Some(e) => Some(e.clone()),
                None => None,
            },
        }
    }
}

/// `a` holds the same values as `b`.
pub open spec fn operation_copy(a: TransactionOperation, b: TransactionOperation) -> bool {
    &&& a.operation_id == b.operation_id
    &&& a.contract_type == b.contract_type
    &&& a.contract_address == b.contract_address
    &&& a.function_name == b.function_name
    &&& a.parameters@ == b.parameters@
    &&& a.locked_resources@ == b.locked_resources@
    &&& a.prepared == b.prepared
    &&& a.committed == b.committed
    &&& a.error == b.error
}

/// No two operations of the list share an id.
pub open spec fn unique_operation_ids(ops: Seq<TransactionOperation>) -> bool {
    forall|i: int, j: int|
        0 <= i < ops.len() && 0 <= j < ops.len() && i != j ==> #[trigger] ops[i].operation_id
            != #[trigger] ops[j].operation_id
}

/// Operation `i` is the first with id `id`.
pub open spec fn first_with_id(ops: Seq<TransactionOperation>, id: u64, i: int) -> bool {
    &&& 0 <= i < ops.len()
    &&& ops[i].operation_id == id
    &&& forall|j: int| 0 <= j < i ==> (#[trigger] ops[j]).operation_id != id
}

pub open spec fn has_id(ops: Seq<TransactionOperation>, id: u64) -> bool {
    exists|i: int| 0 <= i < ops.len() && (#[trigger] ops[i]).operation_id == id
}

/// Finds the first operation with id `operation_id`.
pub fn find_operation(operations: &Vec<TransactionOperation>, operation_id: u64) -> (r: Option<usize>)
    ensures
        match r {
            Some(i) => first_with_id(operations@, operation_id, i as int),
            None => !has_id(operations@, operation_id),
        },
{
    let mut i: usize = 0;
    while i < operations.len()
        invariant
            i <= operations@.len(),
            forall|j: int| 0 <= j < i ==> (#[trigger] operations@[j]).operation_id != operation_id,
        decreases operations@.len() - i,
    {
        if operations[i].operation_id == operation_id {
            return Some(i);
        }
        i += 1;
    }
    None
}

/// Copies a list of strings.
pub fn copy_strings(v: &Vec<String>) -> (r: Vec<String>)
    ensures
        r@ == v@,
{
    let mut r: Vec<String> = Vec::new();
    let mut i: usize = 0;
    while i < v.len()
        invariant
            i <= v@.len(),
            r@ == v@.subrange(0, i as int),
        decreases v@.len() - i,
    {
        r.push(v[i].clone());
        i += 1;
    }
    assert(r@ =~= v@);
    r
}

} // verus!
