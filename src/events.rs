//! Lifecycle notifications. The library builds each event from the log it
//! describes; publishing it is the host's concern.
use vstd::prelude::*;
use crate::types::{TransactionLog, TransactionPhase};

verus! {

/// Published when a transaction starts.
#[derive(Debug)]
pub struct TransactionStartedEvent {
    pub transaction_id: u64,
    pub initiator: String,
    pub created_at: u64,
    pub timeout_seconds: u64,
}

/// Published when a transaction's prepare phase completes.
#[derive(Clone, Copy, Debug, PartialEq, Eq, Structural)]
pub struct TransactionPreparedEvent {
    pub transaction_id: u64,
    pub updated_at: u64,
    pub operation_count: u32,
}

/// Published when a transaction commits.
#[derive(Clone, Copy, Debug, PartialEq, Eq, Structural)]
pub struct TransactionCommittedEvent {
    pub transaction_id: u64,
    pub updated_at: u64,
    pub operation_count: u32,
}

/// Published when a transaction is rolled back.
#[derive(Debug)]
pub struct TransactionRolledBackEvent {
    pub transaction_id: u64,
    pub updated_at: u64,
    pub phase: TransactionPhase,
    pub error: Option<String>,
}

/// Published when a transaction times out.
#[derive(Clone, Copy, Debug, PartialEq, Eq, Structural)]
pub struct TransactionTimedOutEvent {
    pub transaction_id: u64,
    pub updated_at: u64,
    pub deadline: u64,
}

/// The deadline of a transaction: its creation time plus its timeout,
/// saturating at the largest timestamp.
pub open spec fn deadline_of(created_at: u64, timeout_seconds: u64) -> u64 {
    if created_at + timeout_seconds > u64::MAX {
        u64::MAX
    } else {
        (created_at + timeout_seconds) as u64
    }
}

/// Builds the transaction-level lifecycle events.
pub struct EventPublisher {}

impl EventPublisher {
    pub fn transaction_started(log: &TransactionLog) -> (e: TransactionStartedEvent)
        ensures
            e.transaction_id == log.transaction_id,
            e.initiator == log.initiator,
            e.created_at == log.created_at,
            e.timeout_seconds == log.timeout_seconds,
    {
        TransactionStartedEvent {
            transaction_id: log.transaction_id,
            initiator: log.initiator.clone(),
            created_at: log.created_at,
            timeout_seconds: log.timeout_seconds,
        }
    }

    pub fn transaction_prepared(log: &TransactionLog) -> (e: TransactionPreparedEvent)
        ensures
            e == (TransactionPreparedEvent {
                transaction_id: log.transaction_id,
                updated_at: log.updated_at,
                operation_count: log.operations@.len() as u32,
            }),
    {
        TransactionPreparedEvent {
            transaction_id: log.transaction_id,
            updated_at: log.updated_at,
            operation_count: log.operations.len() as u32,
        }
    }

    pub fn transaction_committed(log: &TransactionLog) -> (e: TransactionCommittedEvent)
        ensures
            e == (TransactionCommittedEvent {
                transaction_id: log.transaction_id,
                updated_at: log.updated_at,
                operation_count: log.operations@.len() as u32,
            }),
    {
        TransactionCommittedEvent {
            transaction_id: log.transaction_id,
            updated_at: log.updated_at,
            operation_count: log.operations.len() as u32,
        }
    }

    pub fn transaction_rolled_back(log: &TransactionLog) -> (e: TransactionRolledBackEvent)
        ensures
            e.transaction_id == log.transaction_id,
            e.updated_at == log.updated_at,
            e.phase == log.phase,
            e.error == log.error,
    {
        TransactionRolledBackEvent {
            transaction_id: log.transaction_id,
            updated_at: log.updated_at,
            phase: log.phase,
            error: match &log.error {
                Some(e) => Some(e.clone()),
                None => None,
            },
        }
    }

    pub fn transaction_timed_out(log: &TransactionLog) -> (e: TransactionTimedOutEvent)
        ensures
            e == (TransactionTimedOutEvent {
                transaction_id: log.transaction_id,
                updated_at: log.updated_at,
                deadline: deadline_of(log.created_at, log.timeout_seconds),
            }),
    {
        TransactionTimedOutEvent {
            transaction_id: log.transaction_id,
            updated_at: log.updated_at,
            deadline: log.created_at.saturating_add(log.timeout_seconds),
        }
    }
}

} // verus!
