use std::time::Duration;
use workflow_engine::RetryPolicy;

#[test]
fn test_retry_policy_default() {
    let policy = RetryPolicy::default();
    assert_eq!(policy.max_retries, 0);
    assert_eq!(policy.retry_delay.as_secs(), 0);
}

#[test]
fn test_retry_policy_builder() {
    let policy = RetryPolicy::default()
        .with_max_retries(3)
        .with_retry_delay(Duration::from_secs(2));

    assert_eq!(policy.max_retries, 3);
    assert_eq!(policy.retry_delay.as_secs(), 2);
}

#[test]
fn retry_policy_new_keeps_fields() {
    let policy = RetryPolicy::new(5, Duration::from_millis(250));
    assert_eq!(policy.max_retries, 5);
    assert_eq!(policy.retry_delay, Duration::from_millis(250));
    let changed = policy.with_max_retries(1);
    assert_eq!(changed.max_retries, 1);
    assert_eq!(changed.retry_delay, Duration::from_millis(250));
}
