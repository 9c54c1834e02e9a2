use std::cell::RefCell;

use orchestrator::events::EventPublisher;
use orchestrator::participant::{participant_call, Participants};
use orchestrator::transaction::TransactionManager;
use orchestrator::types::{
    ContractType, ParticipantCall, TransactionError, TransactionLog, TransactionOperation, TransactionPhase,
};

fn op(id: u64, name: &str) -> TransactionOperation {
    TransactionOperation {
        operation_id: id,
        contract_type: ContractType::Identity,
        contract_address: format!("C{}", id),
        function_name: name.to_string(),
        parameters: vec![format!("arg{}", id)],
        locked_resources: vec![format!("R{}", id)],
        prepared: false,
        committed: false,
        error: None,
    }
}

fn log_of(ops: Vec<TransactionOperation>) -> TransactionLog {
    TransactionLog {
        transaction_id: 9,
        initiator: "GINIT".to_string(),
        phase: TransactionPhase::Initiated,
        operations: ops,
        created_at: 100,
        updated_at: 100,
        timeout_seconds: 300,
        error: None,
    }
}

#[test]
fn validate_transaction_accepts_valid_unique_operations() {
    let mgr = TransactionManager::new(0);
    let ops = vec![op(1, "a"), op(2, "b"), op(3, "c")];
    assert_eq!(mgr.validate_transaction(&ops), Ok(()));
}

#[test]
fn validate_transaction_rejects_empty_duplicates_and_bad_fields() {
    let mgr = TransactionManager::new(0);
    assert_eq!(mgr.validate_transaction(&vec![]), Err(TransactionError::InvalidInput));
    assert_eq!(mgr.validate_transaction(&vec![op(1, "a"), op(1, "b")]), Err(TransactionError::InvalidInput));
    let mut unnamed = op(2, "b");
    unnamed.function_name = String::new();
    assert_eq!(mgr.validate_transaction(&vec![op(1, "a"), unnamed]), Err(TransactionError::InvalidInput));
    let mut no_address = op(2, "b");
    no_address.contract_address = String::new();
    assert_eq!(mgr.validate_transaction(&vec![op(1, "a"), no_address]), Err(TransactionError::InvalidInput));
    let mut many = op(2, "b");
    many.parameters = (0..11).map(|i| i.to_string()).collect();
    assert_eq!(mgr.validate_transaction(&vec![op(1, "a"), many]), Err(TransactionError::InvalidInput));
}

#[test]
fn prepare_then_commit_with_willing_participants_commits_everything() {
    let calls = RefCell::new(Vec::new());
    let invoke = |c: ParticipantCall| -> Result<(), String> {
        calls.borrow_mut().push((c.contract_address.clone(), c.entry_point.clone(), c.parameters.clone()));
        Ok(())
    };
    let mut log = log_of(vec![op(1, "add_guardian"), op(2, "prepare_set_threshold")]);
    let mgr = TransactionManager::new(500);
    assert_eq!(mgr.prepare_phase(&mut log, &mut Participants::new(&invoke)), Ok(()));
    assert_eq!(log.phase, TransactionPhase::Prepared);
    assert_eq!(log.updated_at, 500);
    assert!(mgr.can_commit(&log));
    let mgr = TransactionManager::new(600);
    assert_eq!(mgr.commit_phase(&mut log, &mut Participants::new(&invoke)), Ok(()));
    assert_eq!(log.updated_at, 600);
    assert_eq!(log.phase, TransactionPhase::Prepared);
    for o in &log.operations {
        assert!(o.prepared && o.committed);
        assert!(o.error.is_none());
    }
    let names: Vec<String> = calls.borrow().iter().map(|c| c.1.clone()).collect();
    assert_eq!(
        names,
        vec!["prepare_add_guardian", "prepare_set_threshold", "commit_add_guardian", "commit_prepare_set_threshold"]
    );
    assert_eq!(calls.borrow()[0].0, "C1");
    assert_eq!(calls.borrow()[0].2, vec!["arg1".to_string()]);
}

#[test]
fn prepare_stops_at_first_failure() {
    let calls = RefCell::new(Vec::new());
    let invoke = |c: ParticipantCall| -> Result<(), String> {
        calls.borrow_mut().push(c.entry_point.clone());
        if c.contract_address == "C2" { Err("participant refused".to_string()) } else { Ok(()) }
    };
    let mut log = log_of(vec![op(1, "a"), op(2, "b"), op(3, "c")]);
    let mgr = TransactionManager::new(500);
    assert_eq!(mgr.prepare_phase(&mut log, &mut Participants::new(&invoke)), Err(TransactionError::ContractCallFailed));
    assert_eq!(*calls.borrow(), vec!["prepare_a".to_string(), "prepare_b".to_string()]);
    assert!(log.operations[0].prepared && log.operations[0].error.is_none());
    assert!(!log.operations[1].prepared);
    assert_eq!(log.operations[1].error, Some("participant refused".to_string()));
    assert!(!log.operations[2].prepared && log.operations[2].error.is_none());
    assert_eq!(log.phase, TransactionPhase::Preparing);
    assert_eq!(log.updated_at, 100);
    assert!(!mgr.can_commit(&log));
}

#[test]
fn prepare_requires_initiated_phase() {
    let calls = RefCell::new(0);
    let invoke = |_c: ParticipantCall| -> Result<(), String> {
        *calls.borrow_mut() += 1;
        Ok(())
    };
    let mut log = log_of(vec![op(1, "a")]);
    log.phase = TransactionPhase::Committed;
    let mgr = TransactionManager::new(1);
    assert_eq!(mgr.prepare_phase(&mut log, &mut Participants::new(&invoke)), Err(TransactionError::InvalidPhase));
    assert_eq!(log.phase, TransactionPhase::Committed);
    assert!(!log.operations[0].prepared);
    assert_eq!(*calls.borrow(), 0);
}

#[test]
fn commit_requires_prepared_log() {
    let calls = RefCell::new(0);
    let invoke = |_c: ParticipantCall| -> Result<(), String> {
        *calls.borrow_mut() += 1;
        Ok(())
    };
    let mgr = TransactionManager::new(1);
    let mut log = log_of(vec![op(1, "a")]);
    assert_eq!(mgr.commit_phase(&mut log, &mut Participants::new(&invoke)), Err(TransactionError::InvalidPhase));
    log.phase = TransactionPhase::Prepared;
    assert_eq!(mgr.commit_phase(&mut log, &mut Participants::new(&invoke)), Err(TransactionError::InvalidPhase));
    assert_eq!(*calls.borrow(), 0);
}

#[test]
fn commit_stops_at_first_failure() {
    let invoke = |c: ParticipantCall| -> Result<(), String> {
        if c.entry_point == "commit_b" { Err("down".to_string()) } else { Ok(()) }
    };
    let mut log = log_of(vec![op(1, "a"), op(2, "b"), op(3, "c")]);
    for o in log.operations.iter_mut() {
        o.prepared = true;
    }
    log.phase = TransactionPhase::Prepared;
    let mgr = TransactionManager::new(7);
    assert_eq!(mgr.commit_phase(&mut log, &mut Participants::new(&invoke)), Err(TransactionError::ContractCallFailed));
    assert!(log.operations[0].committed);
    assert!(!log.operations[1].committed);
    assert_eq!(log.operations[1].error, Some("down".to_string()));
    assert!(!log.operations[2].committed);
    assert_eq!(log.updated_at, 100);
}

#[test]
fn operation_status_words() {
    let mgr = TransactionManager::new(0);
    let mut log = log_of(vec![op(1, "a"), op(2, "b"), op(3, "c"), op(4, "d")]);
    log.operations[0].prepared = true;
    log.operations[0].committed = true;
    log.operations[1].prepared = true;
    log.operations[2].error = Some("boom".to_string());
    assert_eq!(mgr.get_operation_status(Some(&log), 1), Ok("committed".to_string()));
    assert_eq!(mgr.get_operation_status(Some(&log), 2), Ok("prepared".to_string()));
    assert_eq!(mgr.get_operation_status(Some(&log), 3), Ok("failed".to_string()));
    assert_eq!(mgr.get_operation_status(Some(&log), 4), Ok("pending".to_string()));
    assert_eq!(mgr.get_operation_status(Some(&log), 5), Err(TransactionError::OperationNotFound));
    assert_eq!(mgr.get_operation_status(None, 1), Err(TransactionError::TransactionNotFound));
}

#[test]
fn failed_operations_are_those_with_errors() {
    let mgr = TransactionManager::new(0);
    let mut log = log_of(vec![op(1, "a"), op(2, "b"), op(3, "c")]);
    log.operations[1].error = Some("x".to_string());
    log.operations[2].error = Some("y".to_string());
    let failed = mgr.get_failed_operations(Some(&log)).unwrap();
    assert_eq!(failed.len(), 2);
    assert_eq!(failed[0].operation_id, 2);
    assert_eq!(failed[1].operation_id, 3);
    assert_eq!(failed[1].error, Some("y".to_string()));
    assert_eq!(failed[0].parameters, vec!["arg2".to_string()]);
    assert!(mgr.get_failed_operations(None).is_err());
}

#[test]
fn participant_call_uses_operation_fields() {
    let o = op(5, "verify_proof");
    let c = participant_call("commit_", &o);
    assert_eq!(c.contract_address, "C5");
    assert_eq!(c.entry_point, "commit_verify_proof");
    assert_eq!(c.parameters, vec!["arg5".to_string()]);
}

#[test]
fn lifecycle_events_copy_log_fields() {
    let mut log = log_of(vec![op(1, "a"), op(2, "b")]);
    log.updated_at = 150;
    let started = EventPublisher::transaction_started(&log);
    assert_eq!(started.transaction_id, 9);
    assert_eq!(started.initiator, "GINIT");
    assert_eq!(started.created_at, 100);
    assert_eq!(started.timeout_seconds, 300);
    let prepared = EventPublisher::transaction_prepared(&log);
    assert_eq!((prepared.transaction_id, prepared.updated_at, prepared.operation_count), (9, 150, 2));
    let committed = EventPublisher::transaction_committed(&log);
    assert_eq!(committed.operation_count, 2);
    let timed_out = EventPublisher::transaction_timed_out(&log);
    assert_eq!(timed_out.deadline, 400);
    log.created_at = u64::MAX - 1;
    assert_eq!(EventPublisher::transaction_timed_out(&log).deadline, u64::MAX);
    log.error = Some("aborted".to_string());
    log.phase = TransactionPhase::RolledBack;
    let rolled = EventPublisher::transaction_rolled_back(&log);
    assert_eq!(rolled.phase, TransactionPhase::RolledBack);
    assert_eq!(rolled.error, Some("aborted".to_string()));
}
