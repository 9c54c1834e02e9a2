use orchestrator::names::entry_point;
use orchestrator::types::{ContractType, TransactionError, TransactionOperation, TransactionPhase, TransactionTimeoutConfig};
use orchestrator::validation::{
    is_transaction_expired_check, validate_address, validate_batch_operation, validate_config_update,
    validate_deadlock_detection, validate_function_name, validate_metadata, validate_operation_count,
    validate_operation_parameters, validate_phase_transition, validate_resource_id, validate_rollback_operation,
    validate_timeout, validate_timeout_config, validate_transaction_metadata, validate_transaction_operation,
};

fn strings(n: usize) -> Vec<String> {
    (0..n).map(|i| format!("p{}", i)).collect()
}

fn op_with_resources(resources: Vec<String>) -> TransactionOperation {
    TransactionOperation {
        operation_id: 1,
        contract_type: ContractType::Identity,
        contract_address: "CADDR".to_string(),
        function_name: "add_guardian".to_string(),
        parameters: vec![],
        locked_resources: resources,
        prepared: false,
        committed: false,
        error: None,
    }
}

#[test]
fn timeout_bounds() {
    assert_eq!(validate_timeout(29), Err(TransactionError::InvalidInput));
    assert_eq!(validate_timeout(30), Ok(()));
    assert_eq!(validate_timeout(604800), Ok(()));
    assert_eq!(validate_timeout(604801), Err(TransactionError::InvalidInput));
}

#[test]
fn operation_count_bounds() {
    assert_eq!(validate_operation_count(0), Err(TransactionError::InvalidInput));
    assert_eq!(validate_operation_count(1), Ok(()));
    assert_eq!(validate_operation_count(50), Ok(()));
    assert_eq!(validate_operation_count(51), Err(TransactionError::InvalidInput));
}

#[test]
fn metadata_and_parameter_counts() {
    assert_eq!(validate_metadata(&strings(20)), Ok(()));
    assert_eq!(validate_metadata(&strings(21)), Err(TransactionError::InvalidInput));
    assert_eq!(validate_operation_parameters(&strings(10)), Ok(()));
    assert_eq!(validate_operation_parameters(&strings(11)), Err(TransactionError::InvalidInput));
}

#[test]
fn name_and_resource_lengths() {
    assert_eq!(validate_function_name(&String::new()), Err(TransactionError::InvalidInput));
    assert_eq!(validate_function_name(&"a".repeat(64)), Ok(()));
    assert_eq!(validate_function_name(&"a".repeat(65)), Err(TransactionError::InvalidInput));
    assert_eq!(validate_resource_id(&String::new()), Err(TransactionError::InvalidInput));
    assert_eq!(validate_resource_id(&"r".repeat(128)), Ok(()));
    assert_eq!(validate_resource_id(&"r".repeat(129)), Err(TransactionError::InvalidInput));
    // lengths count bytes: 33 two-byte characters are 66 bytes
    assert_eq!(validate_function_name(&"é".repeat(33)), Err(TransactionError::InvalidInput));
    assert_eq!(validate_function_name(&"é".repeat(32)), Ok(()));
    assert_eq!(validate_resource_id(&"é".repeat(65)), Err(TransactionError::InvalidInput));
}

#[test]
fn address_must_not_be_empty() {
    assert_eq!(validate_address(&String::new()), Err(TransactionError::InvalidInput));
    assert_eq!(validate_address(&"GADMIN".to_string()), Ok(()));
}

#[test]
fn transaction_metadata_checks_each_field() {
    let ok = validate_transaction_metadata(&"GINIT".to_string(), 3, 300, &strings(2));
    assert_eq!(ok, Ok(()));
    assert_eq!(
        validate_transaction_metadata(&String::new(), 3, 300, &strings(2)),
        Err(TransactionError::InvalidInput)
    );
    assert_eq!(
        validate_transaction_metadata(&"GINIT".to_string(), 3, 10, &strings(2)),
        Err(TransactionError::InvalidInput)
    );
}

#[test]
fn transaction_operation_fields() {
    let addr = "CADDR".to_string();
    let name = "add_guardian".to_string();
    assert_eq!(validate_transaction_operation(1, &addr, &name, &strings(2), &strings(2)), Ok(()));
    assert_eq!(
        validate_transaction_operation(0, &addr, &name, &strings(2), &strings(2)),
        Err(TransactionError::InvalidInput)
    );
    assert_eq!(
        validate_transaction_operation(1, &addr, &name, &strings(2), &vec![String::new()]),
        Err(TransactionError::InvalidInput)
    );
    assert_eq!(
        validate_transaction_operation(1, &addr, &name, &strings(11), &strings(1)),
        Err(TransactionError::InvalidInput)
    );
}

#[test]
fn phase_transition_table_is_exhaustive() {
    let all = [
        TransactionPhase::Initiated,
        TransactionPhase::Preparing,
        TransactionPhase::Prepared,
        TransactionPhase::Committed,
        TransactionPhase::RolledBack,
        TransactionPhase::TimedOut,
    ];
    let allowed = [
        (TransactionPhase::Initiated, TransactionPhase::Preparing),
        (TransactionPhase::Preparing, TransactionPhase::Prepared),
        (TransactionPhase::Prepared, TransactionPhase::Committed),
        (TransactionPhase::Preparing, TransactionPhase::RolledBack),
        (TransactionPhase::Prepared, TransactionPhase::RolledBack),
        (TransactionPhase::Preparing, TransactionPhase::TimedOut),
        (TransactionPhase::Prepared, TransactionPhase::TimedOut),
    ];
    for from in all.iter() {
        for to in all.iter() {
            let expected = if allowed.contains(&(*from, *to)) { Ok(()) } else { Err(TransactionError::InvalidPhase) };
            assert_eq!(validate_phase_transition(from, to), expected, "{:?} -> {:?}", from, to);
        }
    }
    assert_eq!(
        validate_phase_transition(&TransactionPhase::Committed, &TransactionPhase::Preparing),
        Err(TransactionError::InvalidPhase)
    );
    assert_eq!(
        validate_phase_transition(&TransactionPhase::Prepared, &TransactionPhase::Preparing),
        Err(TransactionError::InvalidPhase)
    );
}

#[test]
fn rollback_eligibility() {
    assert_eq!(validate_rollback_operation(true, false), Ok(()));
    assert_eq!(validate_rollback_operation(false, false), Err(TransactionError::InvalidPhase));
    assert_eq!(validate_rollback_operation(true, true), Err(TransactionError::InvalidPhase));
}

#[test]
fn deadlock_detection_parameters() {
    let good = vec![op_with_resources(vec!["R1".to_string()])];
    assert_eq!(validate_deadlock_detection(7, &good), Ok(()));
    assert_eq!(validate_deadlock_detection(0, &good), Err(TransactionError::InvalidInput));
    assert_eq!(validate_deadlock_detection(7, &vec![]), Err(TransactionError::InvalidInput));
    let bad = vec![op_with_resources(vec!["x".repeat(129)])];
    assert_eq!(validate_deadlock_detection(7, &bad), Err(TransactionError::InvalidInput));
}

#[test]
fn timeout_configuration() {
    let good = TransactionTimeoutConfig {
        default_timeout: 300,
        max_timeout: 3600,
        contract_timeouts: vec![(ContractType::ZkVerifier, 600)],
    };
    assert_eq!(validate_timeout_config(&good), Ok(()));
    let inverted = TransactionTimeoutConfig { default_timeout: 300, max_timeout: 100, contract_timeouts: vec![] };
    assert_eq!(validate_timeout_config(&inverted), Err(TransactionError::InvalidInput));
    let bad_override = TransactionTimeoutConfig {
        default_timeout: 300,
        max_timeout: 3600,
        contract_timeouts: vec![(ContractType::Identity, 5)],
    };
    assert_eq!(validate_timeout_config(&bad_override), Err(TransactionError::InvalidInput));
}

#[test]
fn config_update_requires_admin() {
    let config = TransactionTimeoutConfig { default_timeout: 300, max_timeout: 3600, contract_timeouts: vec![] };
    let admin = "GADMIN".to_string();
    assert_eq!(validate_config_update(&admin, &admin, &config), Ok(()));
    assert_eq!(
        validate_config_update(&"GOTHER".to_string(), &admin, &config),
        Err(TransactionError::Unauthorized)
    );
    let bad = TransactionTimeoutConfig { default_timeout: 1, max_timeout: 3600, contract_timeouts: vec![] };
    assert_eq!(validate_config_update(&admin, &admin, &bad), Err(TransactionError::InvalidInput));
}

#[test]
fn expiry_is_strictly_after_deadline() {
    assert!(!is_transaction_expired_check(1000, 300, 1300));
    assert!(is_transaction_expired_check(1000, 300, 1301));
    assert!(!is_transaction_expired_check(u64::MAX - 5, 300, u64::MAX));
}

#[test]
fn batch_bounds() {
    assert_eq!(validate_batch_operation(&vec![1, 2, 3], 3), Ok(()));
    assert_eq!(validate_batch_operation(&vec![], 3), Err(TransactionError::InvalidInput));
    assert_eq!(validate_batch_operation(&vec![1, 2, 3, 4], 3), Err(TransactionError::InvalidInput));
    assert_eq!(validate_batch_operation(&vec![1, 0], 3), Err(TransactionError::InvalidInput));
}

#[test]
fn entry_point_names() {
    assert_eq!(entry_point("prepare_", &"add_guardian".to_string()), "prepare_add_guardian");
    assert_eq!(entry_point("prepare_", &"prepare_add_guardian".to_string()), "prepare_add_guardian");
    assert_eq!(entry_point("commit_", &"verify_proof".to_string()), "commit_verify_proof");
    assert_eq!(entry_point("rollback_", &"rollback_x".to_string()), "rollback_x");
    let once = entry_point("commit_", &"x".to_string());
    assert_eq!(entry_point("commit_", &once), once);
}
