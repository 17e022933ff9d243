use std::time::Duration;
use workflow_engine::executor::{AttemptOutcome, RetryTracker};
use workflow_engine::RetryPolicy;

#[test]
fn always_failing_task_is_tried_max_retries_plus_one_times() {
    let policy = RetryPolicy::default()
        .with_max_retries(2)
        .with_retry_delay(Duration::from_millis(50));
    let mut t = RetryTracker::new(&policy);
    let mut executions = 0;
    let outcome = loop {
        let n = t.begin_attempt();
        executions += 1;
        assert_eq!(n, executions);
        match t.record_outcome(false) {
            AttemptOutcome::Retry { delay } => assert_eq!(delay, Duration::from_millis(50)),
            other => break other,
        }
    };
    assert_eq!(executions, 3);
    match outcome {
        AttemptOutcome::Failed { attempts } => assert_eq!(attempts, 3),
        other => panic!("unexpected {:?}", other),
    }
}

#[test]
fn task_succeeding_on_third_attempt_completes() {
    let policy = RetryPolicy::default().with_max_retries(2);
    let mut t = RetryTracker::new(&policy);
    t.begin_attempt();
    assert!(matches!(t.record_outcome(false), AttemptOutcome::Retry { .. }));
    t.begin_attempt();
    assert!(matches!(t.record_outcome(false), AttemptOutcome::Retry { .. }));
    t.begin_attempt();
    match t.record_outcome(true) {
        AttemptOutcome::Completed { attempts } => assert_eq!(attempts, 3),
        other => panic!("unexpected {:?}", other),
    }
}

#[test]
fn without_retries_first_failure_is_final() {
    let mut t = RetryTracker::new(&RetryPolicy::default());
    assert_eq!(t.begin_attempt(), 1);
    match t.record_outcome(false) {
        AttemptOutcome::Failed { attempts } => assert_eq!(attempts, 1),
        other => panic!("unexpected {:?}", other),
    }
}

#[test]
fn first_attempt_success_completes_with_one_attempt() {
    let mut t = RetryTracker::new(&RetryPolicy::default().with_max_retries(4));
    t.begin_attempt();
    match t.record_outcome(true) {
        AttemptOutcome::Completed { attempts } => assert_eq!(attempts, 1),
        other => panic!("unexpected {:?}", other),
    }
}
