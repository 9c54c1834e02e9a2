use orchestrator::deadlock::DeadlockDetector;
use orchestrator::types::{ContractType, TransactionOperation};

fn locks(entries: &[(&str, u64)]) -> Vec<(String, u64)> {
    entries.iter().map(|(r, t)| (r.to_string(), *t)).collect()
}

fn op_locking(resources: &[&str]) -> TransactionOperation {
    TransactionOperation {
        operation_id: 1,
        contract_type: ContractType::ZkVerifier,
        contract_address: "C".to_string(),
        function_name: "f".to_string(),
        parameters: vec![],
        locked_resources: resources.iter().map(|r| r.to_string()).collect(),
        prepared: false,
        committed: false,
        error: None,
    }
}

#[test]
fn two_transactions_each_wanting_the_others_resource_deadlock() {
    // T1 holds R1 and wants R2; T2 holds R2 and wants R1; each want is registered in the table.
    let table = locks(&[("R1", 1), ("R2", 2), ("R2", 1), ("R1", 2)]);
    let detector = DeadlockDetector::new(table, 50);
    assert!(detector.would_cause_deadlock(&1, &vec![op_locking(&["R1", "R2"])]));
    assert!(detector.would_cause_deadlock(&2, &vec![op_locking(&["R2", "R1"])]));
}

#[test]
fn waiting_on_holders_alone_is_no_cycle() {
    let table = locks(&[("R1", 1), ("R2", 2)]);
    let detector = DeadlockDetector::new(table, 50);
    assert!(!detector.would_cause_deadlock(&1, &vec![op_locking(&["R1", "R2"])]));
    assert!(!detector.would_cause_deadlock(&3, &vec![op_locking(&["R1", "R2"])]));
}

#[test]
fn three_way_cycle_is_reported_with_smallest_victim() {
    let table = locks(&[("R1", 11), ("R2", 12), ("R3", 13), ("R2", 11), ("R3", 12), ("R1", 13)]);
    let detector = DeadlockDetector::new(table, 77);
    let found = detector.detect_and_resolve_deadlocks().unwrap();
    assert!(!found.is_empty());
    let full: Vec<_> = found.iter().filter(|d| d.conflicting_transactions.len() == 3).collect();
    assert_eq!(full.len(), 1);
    let d = full[0];
    assert_eq!(d.transaction_id, 11);
    let mut members = d.conflicting_transactions.clone();
    members.sort();
    assert_eq!(members, vec![11, 12, 13]);
    assert_eq!(d.conflicting_resources, vec!["R1".to_string(), "R2".to_string(), "R3".to_string()]);
    assert_eq!(d.detected_at, 77);
    for d in &found {
        assert_eq!(d.transaction_id, *d.conflicting_transactions.iter().min().unwrap());
    }
}

#[test]
fn no_shared_resource_means_no_deadlock() {
    let table = locks(&[("R1", 1), ("R2", 2), ("R3", 1)]);
    let detector = DeadlockDetector::new(table, 5);
    assert!(!detector.would_cause_deadlock(&4, &vec![op_locking(&["R1", "R2", "R3"])]));
    assert!(detector.detect_and_resolve_deadlocks().unwrap().is_empty());
    let empty = DeadlockDetector::new(vec![], 5);
    assert!(!empty.would_cause_deadlock(&4, &vec![op_locking(&["R1"])]));
    assert!(empty.detect_and_resolve_deadlocks().unwrap().is_empty());
}

#[test]
fn shared_resource_pair_is_reported() {
    let table = locks(&[("R1", 5), ("R1", 3)]);
    let detector = DeadlockDetector::new(table, 9);
    let found = detector.detect_and_resolve_deadlocks().unwrap();
    assert_eq!(found.len(), 1);
    assert_eq!(found[0].transaction_id, 3);
    assert_eq!(found[0].conflicting_transactions, vec![5, 3]);
    assert_eq!(found[0].conflicting_resources, vec!["R1".to_string()]);
}

#[test]
fn prevention_suggestions() {
    let detector = DeadlockDetector::new(vec![], 0);
    let small = detector.get_deadlock_prevention_suggestions(&vec![op_locking(&["R1"])]);
    assert_eq!(
        small,
        vec![
            "Consider acquiring resources in a consistent order across all transactions".to_string(),
            "Configure appropriate timeouts to prevent indefinite waiting".to_string(),
        ]
    );
    let many: Vec<TransactionOperation> = (0..6).map(|_| op_locking(&["R"])).collect();
    let s = detector.get_deadlock_prevention_suggestions(&many);
    assert_eq!(s.len(), 3);
    assert_eq!(s[2], "Consider breaking down large transactions into smaller batches");
    let wide = detector.get_deadlock_prevention_suggestions(&vec![op_locking(&["a", "b", "c", "d"])]);
    assert_eq!(wide.len(), 3);
    assert_eq!(wide[2], "Consider using more granular resource locking");
}

#[test]
fn every_sharing_pair_appears_in_some_report() {
    let table = locks(&[("R1", 11), ("R2", 12), ("R3", 13), ("R2", 11), ("R3", 12), ("R1", 13)]);
    let found = DeadlockDetector::new(table, 1).detect_and_resolve_deadlocks().unwrap();
    for (a, b) in [(11u64, 12u64), (12, 13), (11, 13)] {
        assert!(found.iter().any(|d| d.conflicting_transactions.contains(&a) && d.conflicting_transactions.contains(&b)));
    }
}

#[test]
fn conflicting_resources_follow_lock_table_order() {
    let table = locks(&[("R9", 2), ("R1", 1), ("R9", 1), ("R5", 2)]);
    let found = DeadlockDetector::new(table, 1).detect_and_resolve_deadlocks().unwrap();
    assert_eq!(found.len(), 1);
    assert_eq!(
        found[0].conflicting_resources,
        vec!["R9".to_string(), "R1".to_string(), "R5".to_string()]
    );
}
