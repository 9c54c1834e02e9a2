//! Stateless checks that run before any state changes.
use vstd::prelude::*;
use crate::types::{ContractType, TransactionError, TransactionOperation, TransactionPhase, TransactionTimeoutConfig};

verus! {

pub const MIN_TIMEOUT_SECONDS: u64 = 30;

pub const MAX_TIMEOUT_SECONDS: u64 = 604800;

pub const MAX_OPERATIONS_PER_TRANSACTION: u32 = 50;

pub const MAX_METADATA_ITEMS: usize = 20;

pub const MAX_PARAMETERS_PER_OPERATION: usize = 10;

pub const MAX_FUNCTION_NAME_LEN: usize = 64;

pub const MAX_RESOURCE_ID_LEN: usize = 128;

/// A timeout lies between thirty seconds and seven days.
pub open spec fn valid_timeout(t: u64) -> bool {
    MIN_TIMEOUT_SECONDS <= t <= MAX_TIMEOUT_SECONDS
}

/// An address is resolvable when it is not empty.
pub open spec fn valid_address(a: Seq<char>) -> bool {
    a.len() > 0
}

/// The length of a string in bytes of its UTF-8 encoding, as `str::len`
/// gives it.
pub open spec fn byte_len(s: Seq<char>) -> usize {
    vstd::utf8::encode_utf8(s).len() as usize
}

/// A function name is 1 to 64 bytes long.
pub open spec fn valid_function_name(name: Seq<char>) -> bool {
    1 <= byte_len(name) <= MAX_FUNCTION_NAME_LEN
}

/// A resource identifier is 1 to 128 bytes long.
pub open spec fn valid_resource_id(id: Seq<char>) -> bool {
    1 <= byte_len(id) <= MAX_RESOURCE_ID_LEN
}

pub open spec fn all_resource_ids_valid(resources: Seq<String>) -> bool {
    forall|i: int| 0 <= i < resources.len() ==> valid_resource_id(#[trigger] resources[i]@)
}

/// The per-field rules for one operation.
pub open spec fn operation_fields_valid(
    operation_id: u64,
    contract_address: Seq<char>,
    function_name: Seq<char>,
    parameter_count: nat,
    resources: Seq<String>,
) -> bool {
    &&& operation_id != 0
    &&& valid_address(contract_address)
    &&& valid_function_name(function_name)
    &&& parameter_count <= MAX_PARAMETERS_PER_OPERATION
    &&& all_resource_ids_valid(resources)
}

pub open spec fn operation_valid(op: TransactionOperation) -> bool {
    operation_fields_valid(
        op.operation_id,
        op.contract_address@,
        op.function_name@,
        op.parameters@.len(),
        op.locked_resources@,
    )
}

/// The legal phase transitions.
pub open spec fn transition_allowed(from: TransactionPhase, to: TransactionPhase) -> bool {
    match (from, to) {
        (TransactionPhase::Initiated, TransactionPhase::Preparing) => true,
        (TransactionPhase::Preparing, TransactionPhase::Prepared) => true,
        (TransactionPhase::Prepared, TransactionPhase::Committed) => true,
        (TransactionPhase::Preparing, TransactionPhase::RolledBack) => true,
        (TransactionPhase::Prepared, TransactionPhase::RolledBack) => true,
        (TransactionPhase::Preparing, TransactionPhase::TimedOut) => true,
        (TransactionPhase::Prepared, TransactionPhase::TimedOut) => true,
        _ => false,
    }
}

pub open spec fn check(ok: bool, e: TransactionError) -> Result<(), TransactionError> {
    if ok {
        Ok(())
    } else {
        Err(e)
    }
}

pub open spec fn timeout_config_valid(config: TransactionTimeoutConfig) -> bool {
    &&& valid_timeout(config.default_timeout)
    &&& config.max_timeout >= config.default_timeout
    &&& forall|i: int|
        0 <= i < config.contract_timeouts@.len() ==> valid_timeout(
            (#[trigger] config.contract_timeouts@[i]).1,
        )
}

pub fn validate_timeout(timeout_seconds: u64) -> (r: Result<(), TransactionError>)
    ensures
        r == check(valid_timeout(timeout_seconds), TransactionError::InvalidInput),
{
    if timeout_seconds < MIN_TIMEOUT_SECONDS || timeout_seconds > MAX_TIMEOUT_SECONDS {
        Err(TransactionError::InvalidInput)
    } else {
        Ok(())
    }
}

pub fn validate_address(address: &String) -> (r: Result<(), TransactionError>)
    ensures
        r == check(valid_address(address@), TransactionError::InvalidInput),
{
    if address.as_str().unicode_len() == 0 {
        Err(TransactionError::InvalidInput)
    } else {
        Ok(())
    }
}

pub fn validate_operation_count(count: u32) -> (r: Result<(), TransactionError>)
    ensures
        r == check(1 <= count <= MAX_OPERATIONS_PER_TRANSACTION, TransactionError::InvalidInput),
{
    if count == 0 || count > MAX_OPERATIONS_PER_TRANSACTION {
        Err(TransactionError::InvalidInput)
    } else {
        Ok(())
    }
}

pub fn validate_metadata(metadata: &Vec<String>) -> (r: Result<(), TransactionError>)
    ensures
        r == check(metadata@.len() <= MAX_METADATA_ITEMS, TransactionError::InvalidInput),
{
    if metadata.len() > MAX_METADATA_ITEMS {
        Err(TransactionError::InvalidInput)
    } else {
        Ok(())
    }
}

pub fn validate_operation_parameters(parameters: &Vec<String>) -> (r: Result<(), TransactionError>)
    ensures
        r == check(
            parameters@.len() <= MAX_PARAMETERS_PER_OPERATION,
            TransactionError::InvalidInput,
        ),
{
    if parameters.len() > MAX_PARAMETERS_PER_OPERATION {
        Err(TransactionError::InvalidInput)
    } else {
        Ok(())
    }
}

pub fn validate_function_name(name: &String) -> (r: Result<(), TransactionError>)
    ensures
        r == check(valid_function_name(name@), TransactionError::InvalidInput),
{
    let len = name.as_str().len();
    if len == 0 || len > MAX_FUNCTION_NAME_LEN {
        Err(TransactionError::InvalidInput)
    } else {
        Ok(())
    }
}

pub fn validate_resource_id(resource_id: &String) -> (r: Result<(), TransactionError>)
    ensures
        r == check(valid_resource_id(resource_id@), TransactionError::InvalidInput),
{
    let len = resource_id.as_str().len();
    if len == 0 || len > MAX_RESOURCE_ID_LEN {
        Err(TransactionError::InvalidInput)
    } else {
        Ok(())
    }
}

fn validate_resource_ids(resources: &Vec<String>) -> (r: Result<(), TransactionError>)
    ensures
        r == check(all_resource_ids_valid(resources@), TransactionError::InvalidInput),
{
    let mut i: usize = 0;
    while i < resources.len()
        invariant
            i <= resources@.len(),
            forall|k: int| 0 <= k < i ==> valid_resource_id(#[trigger] resources@[k]@),
        decreases resources@.len() - i,
    {
        validate_resource_id(&resources[i])?;
        i += 1;
    }
    Ok(())
}

pub fn validate_transaction_metadata(
    initiator: &String,
    operations_count: u32,
    timeout_seconds: u64,
    metadata: &Vec<String>,
) -> (r: Result<(), TransactionError>)
    ensures
        r == check(
            valid_address(initiator@) && 1 <= operations_count <= MAX_OPERATIONS_PER_TRANSACTION
                && valid_timeout(timeout_seconds) && metadata@.len() <= MAX_METADATA_ITEMS,
            TransactionError::InvalidInput,
        ),
{
    validate_address(initiator)?;
    validate_operation_count(operations_count)?;
    validate_timeout(timeout_seconds)?;
    validate_metadata(metadata)?;
    Ok(())
}

pub fn validate_transaction_operation(
    operation_id: u64,
    contract_address: &String,
    function_name: &String,
    parameters: &Vec<String>,
    locked_resources: &Vec<String>,
) -> (r: Result<(), TransactionError>)
    ensures
        r == check(
            operation_fields_valid(
                operation_id,
                contract_address@,
                function_name@,
                parameters@.len(),
                locked_resources@,
            ),
            TransactionError::InvalidInput,
        ),
{
    if operation_id == 0 {
        return Err(TransactionError::InvalidInput);
    }
    validate_address(contract_address)?;
    validate_function_name(function_name)?;
    validate_operation_parameters(parameters)?;
    validate_resource_ids(locked_resources)?;
    Ok(())
}

pub fn validate_phase_transition(from_phase: &TransactionPhase, to_phase: &TransactionPhase) -> (r:
    Result<(), TransactionError>)
    ensures
        r == check(transition_allowed(*from_phase, *to_phase), TransactionError::InvalidPhase),
{
    match (from_phase, to_phase) {
        (TransactionPhase::Initiated, TransactionPhase::Preparing)
        | (TransactionPhase::Preparing, TransactionPhase::Prepared)
        | (TransactionPhase::Prepared, TransactionPhase::Committed)
        | (TransactionPhase::Prepared, TransactionPhase::RolledBack)
        | (TransactionPhase::Preparing, TransactionPhase::RolledBack)
        | (TransactionPhase::Preparing, TransactionPhase::TimedOut)
        | (TransactionPhase::Prepared, TransactionPhase::TimedOut) => Ok(()),
        _ => Err(TransactionError::InvalidPhase),
    }
}

pub fn validate_rollback_operation(prepared: bool, committed: bool) -> (r: Result<
    (),
    TransactionError,
>)
    ensures
        r == check(prepared && !committed, TransactionError::InvalidPhase),
{
    if !prepared || committed {
        Err(TransactionError::InvalidPhase)
    } else {
        Ok(())
    }
}

pub fn validate_deadlock_detection(
    transaction_id: u64,
    operations: &Vec<TransactionOperation>,
) -> (r: Result<(), TransactionError>)
    ensures
        r == check(
            transaction_id != 0 && operations@.len() > 0 && forall|i: int|
                0 <= i < operations@.len() ==> all_resource_ids_valid(
                    (#[trigger] operations@[i]).locked_resources@,
                ),
            TransactionError::InvalidInput,
        ),
{
    if transaction_id == 0 {
        return Err(TransactionError::InvalidInput);
    }
    if operations.is_empty() {
        return Err(TransactionError::InvalidInput);
    }
    let mut i: usize = 0;
    while i < operations.len()
        invariant
            i <= operations@.len(),
            forall|k: int|
                0 <= k < i ==> all_resource_ids_valid((#[trigger] operations@[k]).locked_resources@),
        decreases operations@.len() - i,
    {
        validate_resource_ids(&operations[i].locked_resources)?;
        i += 1;
    }
    Ok(())
}

pub fn validate_timeout_config(config: &TransactionTimeoutConfig) -> (r: Result<
    (),
    TransactionError,
>)
    ensures
        r == check(timeout_config_valid(*config), TransactionError::InvalidInput),
{
    validate_timeout(config.default_timeout)?;
    if config.max_timeout < config.default_timeout {
        return Err(TransactionError::InvalidInput);
    }
    let mut i: usize = 0;
    while i < config.contract_timeouts.len()
        invariant
            i <= config.contract_timeouts@.len(),
            forall|k: int| 0 <= k < i ==> valid_timeout((#[trigger] config.contract_timeouts@[k]).1),
        decreases config.contract_timeouts@.len() - i,
    {
        let (_category, timeout): (ContractType, u64) = config.contract_timeouts[i];
        validate_timeout(timeout)?;
        i += 1;
    }
    Ok(())
}

/// A transaction has expired once the current time passes its deadline, the
/// creation time plus the timeout (saturating at the largest timestamp).
pub fn is_transaction_expired_check(created_at: u64, timeout_seconds: u64, current_timestamp: u64) -> (r:
    bool)
    ensures
        r == (current_timestamp > if created_at + timeout_seconds > u64::MAX {
            u64::MAX as int
        } else {
            created_at + timeout_seconds
        }),
{
    let deadline = created_at.saturating_add(timeout_seconds);
    current_timestamp > deadline
}

pub fn validate_batch_operation(transaction_ids: &Vec<u64>, max_batch_size: u32) -> (r: Result<
    (),
    TransactionError,
>)
    ensures
        r == check(
            transaction_ids@.len() > 0 && transaction_ids@.len() <= max_batch_size && forall|i: int|
                0 <= i < transaction_ids@.len() ==> #[trigger] transaction_ids@[i] != 0,
            TransactionError::InvalidInput,
        ),
{
    if transaction_ids.is_empty() {
        return Err(TransactionError::InvalidInput);
    }
    if transaction_ids.len() > max_batch_size as usize {
        return Err(TransactionError::InvalidInput);
    }
    let mut i: usize = 0;
    while i < transaction_ids.len()
        invariant
            i <= transaction_ids@.len(),
            forall|k: int| 0 <= k < i ==> #[trigger] transaction_ids@[k] != 0,
        decreases transaction_ids@.len() - i,
    {
        if transaction_ids[i] == 0 {
            return Err(TransactionError::InvalidInput);
        }
        i += 1;
    }
    Ok(())
}

/// A configuration change is accepted only from the administrator, and only
/// when the new configuration is valid.
pub fn validate_config_update(
    caller: &String,
    admin: &String,
    new_config: &TransactionTimeoutConfig,
) -> (r: Result<(), TransactionError>)
    ensures
        caller@ != admin@ ==> r == Err::<(), TransactionError>(TransactionError::Unauthorized),
        caller@ == admin@ ==> r == check(
            timeout_config_valid(*new_config),
            TransactionError::InvalidInput,
        ),
{
    if !caller.eq(admin) {
        return Err(TransactionError::Unauthorized);
    }
    validate_timeout_config(new_config)?;
    Ok(())
}

} // verus!
