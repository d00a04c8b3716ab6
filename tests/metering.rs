use linera_kv::metering::{Operation, OperationMetrics};

#[test]
fn records_count_and_latency_per_operation() {
    let mut metrics = OperationMetrics::new();
    metrics.record(Operation::ReadValue, 5);
    metrics.record(Operation::ReadValue, 7);
    metrics.record(Operation::WriteBatch, 100);
    assert_eq!(metrics.count_of(Operation::ReadValue), 2);
    assert_eq!(metrics.latency_of(Operation::ReadValue), 12);
    assert_eq!(metrics.count_of(Operation::WriteBatch), 1);
    assert_eq!(metrics.latency_of(Operation::WriteBatch), 100);
    assert_eq!(metrics.count_of(Operation::ContainsKey), 0);
}

#[test]
fn latency_saturates() {
    let mut metrics = OperationMetrics::new();
    metrics.record(Operation::FindKeysByPrefix, u64::MAX);
    metrics.record(Operation::FindKeysByPrefix, 1);
    assert_eq!(metrics.latency_of(Operation::FindKeysByPrefix), u64::MAX);
    assert_eq!(metrics.count_of(Operation::FindKeysByPrefix), 2);
}
