use std::cell::RefCell;

use orchestrator::participant::Participants;
use orchestrator::rollback::RollbackManager;
use orchestrator::types::{ContractType, ParticipantCall, TransactionError, TransactionLog, TransactionOperation, TransactionPhase};

fn op(id: u64, name: &str, prepared: bool, committed: bool) -> TransactionOperation {
    TransactionOperation {
        operation_id: id,
        contract_type: ContractType::VisionRecords,
        contract_address: format!("C{}", id),
        function_name: name.to_string(),
        parameters: vec![format!("arg{}", id)],
        locked_resources: vec![],
        prepared,
        committed,
        error: None,
    }
}

fn log_of(ops: Vec<TransactionOperation>) -> TransactionLog {
    TransactionLog {
        transaction_id: 4,
        initiator: "GINIT".to_string(),
        phase: TransactionPhase::Prepared,
        operations: ops,
        created_at: 0,
        updated_at: 0,
        timeout_seconds: 60,
        error: None,
    }
}

#[test]
fn rollback_undoes_uncommitted_operations_last_first() {
    let calls = RefCell::new(Vec::new());
    let invoke = |c: ParticipantCall| -> Result<(), String> {
        calls.borrow_mut().push((c.entry_point.clone(), c.parameters.clone()));
        Ok(())
    };
    let log = log_of(vec![op(1, "a", true, true), op(2, "b", true, false), op(3, "c", true, false)]);
    assert_eq!(RollbackManager::new().rollback_transaction(&log, &mut Participants::new(&invoke)), Ok(()));
    let calls = calls.borrow();
    assert_eq!(calls.len(), 2);
    assert_eq!(calls[0], ("rollback_c".to_string(), vec!["arg3".to_string()]));
    assert_eq!(calls[1], ("rollback_b".to_string(), vec!["arg2".to_string()]));
}

#[test]
fn rollback_of_rolled_back_log_makes_no_calls() {
    let calls = RefCell::new(0);
    let invoke = |_c: ParticipantCall| -> Result<(), String> {
        *calls.borrow_mut() += 1;
        Err("must not be called".to_string())
    };
    let log = log_of(vec![op(1, "a", true, true), op(2, "b", false, false), op(3, "c", false, false)]);
    let mgr = RollbackManager::new();
    assert_eq!(mgr.rollback_transaction(&log, &mut Participants::new(&invoke)), Ok(()));
    assert_eq!(mgr.rollback_transaction(&log, &mut Participants::new(&invoke)), Ok(()));
    assert_eq!(*calls.borrow(), 0);
}

#[test]
fn rollback_failure_does_not_stop_the_unwind() {
    let calls = RefCell::new(Vec::new());
    let invoke = |c: ParticipantCall| -> Result<(), String> {
        calls.borrow_mut().push(c.entry_point.clone());
        if c.entry_point == "rollback_c" { Err("no".to_string()) } else { Ok(()) }
    };
    let log = log_of(vec![op(1, "a", true, false), op(2, "b", true, false), op(3, "c", true, false)]);
    assert_eq!(RollbackManager::new().rollback_transaction(&log, &mut Participants::new(&invoke)), Err(TransactionError::RollbackFailed));
    assert_eq!(*calls.borrow(), vec!["rollback_c", "rollback_b", "rollback_a"]);
}

#[test]
fn rollback_operation_reports_record() {
    let ok = |_c: ParticipantCall| -> Result<(), String> { Ok(()) };
    let fail = |_c: ParticipantCall| -> Result<(), String> { Err("x".to_string()) };
    let mgr = RollbackManager::new();
    let o = op(8, "rollback_add", true, false);
    let info = mgr.rollback_operation(&o, &mut Participants::new(&ok)).unwrap();
    assert_eq!(info.transaction_id, 0);
    assert_eq!(info.operation_id, 8);
    assert_eq!(info.contract_address, "C8");
    assert_eq!(info.rollback_function, "rollback_add");
    assert_eq!(info.rollback_parameters, vec!["arg8".to_string()]);
    assert!(info.rollback_successful);
    assert!(info.rollback_error.is_none());
    assert_eq!(mgr.rollback_operation(&o, &mut Participants::new(&fail)).err(), Some(TransactionError::RollbackFailed));
}

#[test]
fn can_rollback_needs_prepared_uncommitted_and_address() {
    let mgr = RollbackManager::new();
    assert!(mgr.can_rollback(&op(1, "a", true, false)));
    assert!(!mgr.can_rollback(&op(1, "a", true, true)));
    assert!(!mgr.can_rollback(&op(1, "a", false, false)));
    let mut no_address = op(1, "a", true, false);
    no_address.contract_address = String::new();
    assert!(!mgr.can_rollback(&no_address));
}

#[test]
fn partial_rollback_follows_given_order() {
    let calls = RefCell::new(Vec::new());
    let invoke = |c: ParticipantCall| -> Result<(), String> {
        calls.borrow_mut().push(c.entry_point.clone());
        Ok(())
    };
    let log = log_of(vec![op(1, "a", true, false), op(2, "b", true, false), op(3, "c", true, false)]);
    let mgr = RollbackManager::new();
    assert_eq!(mgr.partial_rollback(Some(&log), vec![1, 3], &mut Participants::new(&invoke)), Ok(()));
    assert_eq!(*calls.borrow(), vec!["rollback_a", "rollback_c"]);
}

#[test]
fn partial_rollback_errors() {
    let ok = |_c: ParticipantCall| -> Result<(), String> { Ok(()) };
    let fail = |_c: ParticipantCall| -> Result<(), String> { Err("x".to_string()) };
    let log = log_of(vec![op(1, "a", true, false), op(2, "b", true, true)]);
    let mgr = RollbackManager::new();
    assert_eq!(mgr.partial_rollback(Some(&log), vec![1, 9], &mut Participants::new(&ok)), Err(TransactionError::OperationNotFound));
    assert_eq!(mgr.partial_rollback(Some(&log), vec![2], &mut Participants::new(&ok)), Err(TransactionError::InvalidPhase));
    assert_eq!(mgr.partial_rollback(Some(&log), vec![1], &mut Participants::new(&fail)), Err(TransactionError::RollbackFailed));
    assert_eq!(mgr.partial_rollback(None, vec![1], &mut Participants::new(&ok)), Err(TransactionError::TransactionNotFound));
}

#[test]
fn rollback_status_lists_every_operation() {
    let log = log_of(vec![op(1, "a", true, false), op(2, "rollback_b", false, false)]);
    let mgr = RollbackManager::new();
    let status = mgr.get_rollback_status(Some(&log)).unwrap();
    assert_eq!(status.len(), 2);
    assert_eq!(status[0].transaction_id, 4);
    assert_eq!(status[0].rollback_function, "rollback_a");
    assert_eq!(status[1].rollback_function, "rollback_b");
    assert!(!status[1].rollback_successful);
    assert_eq!(mgr.get_rollback_status(None).err(), Some(TransactionError::TransactionNotFound));
}

#[test]
fn rollback_support_probe_and_statistics() {
    let calls = RefCell::new(Vec::new());
    let invoke = |c: ParticipantCall| -> Result<(), String> {
        calls.borrow_mut().push((c.contract_address.clone(), c.entry_point.clone(), c.parameters.len()));
        Err("missing".to_string())
    };
    let mgr = RollbackManager::new();
    let r = mgr.verify_rollback_support(&"CZK".to_string(), vec!["verify_proof".to_string()], &mut Participants::new(&invoke));
    assert_eq!(r, Ok(true));
    assert_eq!(*calls.borrow(), vec![("CZK".to_string(), "rollback_verify_proof".to_string(), 0)]);
    let stats = mgr.get_rollback_statistics().unwrap();
    assert_eq!(
        (stats.total_rollbacks, stats.successful_rollbacks, stats.failed_rollbacks, stats.average_rollback_time),
        (0, 0, 0, 0)
    );
}

#[test]
fn partial_rollback_makes_no_call_at_or_after_an_unknown_id() {
    let calls = RefCell::new(Vec::new());
    let invoke = |c: ParticipantCall| -> Result<(), String> {
        calls.borrow_mut().push(c.entry_point.clone());
        Ok(())
    };
    let log = log_of(vec![op(1, "a", true, false), op(2, "b", true, false), op(3, "c", true, true)]);
    let mgr = RollbackManager::new();
    let r = mgr.partial_rollback(Some(&log), vec![1, 9, 2], &mut Participants::new(&invoke));
    assert_eq!(r, Err(TransactionError::OperationNotFound));
    assert_eq!(*calls.borrow(), vec!["rollback_a"]);
    calls.borrow_mut().clear();
    let r = mgr.partial_rollback(Some(&log), vec![2, 3, 1], &mut Participants::new(&invoke));
    assert_eq!(r, Err(TransactionError::InvalidPhase));
    assert_eq!(*calls.borrow(), vec!["rollback_b"]);
}
