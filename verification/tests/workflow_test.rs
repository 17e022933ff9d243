use workflow_engine::workflow::status_by_task;
use std::time::Duration;
use workflow_engine::{RetryPolicy, TaskState, ValidationError, Workflow, WorkflowOptions};

fn names(v: &[&str]) -> Vec<String> {
    v.iter().map(|s| s.to_string()).collect()
}

#[test]
fn workflow_new_is_empty() {
    let wf = Workflow::new("wf".to_string());
    assert_eq!(wf.workflow_id(), "wf");
    assert!(wf.tasks().is_empty());
    assert_eq!(wf.options().max_concurrency, None);
}

#[test]
fn workflow_add_task_appends_and_defaults_policy() {
    let wf = Workflow::new("wf".to_string())
        .add_task("task1".to_string(), vec![], None)
        .add_task(
            "task2".to_string(),
            names(&["task1"]),
            Some(RetryPolicy::default().with_max_retries(2)),
        );
    let tasks = wf.tasks();
    assert_eq!(tasks.len(), 2);
    assert_eq!(tasks[0].id, "task1");
    assert_eq!(tasks[0].retry_policy.max_retries, 0);
    assert_eq!(tasks[0].retry_policy.retry_delay, Duration::from_secs(0));
    assert_eq!(tasks[1].id, "task2");
    assert_eq!(tasks[1].dependencies, names(&["task1"]));
    assert_eq!(tasks[1].retry_policy.max_retries, 2);
}

#[test]
fn workflow_add_task_replaces_same_name() {
    let wf = Workflow::new("wf".to_string())
        .add_task("a".to_string(), vec![], None)
        .add_task("b".to_string(), names(&["a"]), None)
        .add_task("a".to_string(), names(&["b"]), None);
    let tasks = wf.tasks();
    assert_eq!(tasks.len(), 2);
    assert_eq!(tasks[0].id, "a");
    assert_eq!(tasks[0].dependencies, names(&["b"]));
    // a <-> b is now a cycle
    match wf.validate() {
        Err(ValidationError::CyclicDependency { task }) => assert_eq!(task, "a"),
        other => panic!("unexpected {:?}", other),
    }
}

#[test]
fn workflow_with_options_keeps_tasks() {
    let wf = Workflow::new("wf".to_string())
        .add_task("a".to_string(), vec![], None)
        .with_options(WorkflowOptions::new().with_max_concurrency(2));
    assert_eq!(wf.options().max_concurrency, Some(2));
    assert_eq!(wf.tasks().len(), 1);
}

#[test]
fn workflow_options_default_and_builder() {
    let o: WorkflowOptions = Default::default();
    assert_eq!(o.max_concurrency, None);
    assert_eq!(WorkflowOptions::new().max_concurrency, None);
    assert_eq!(WorkflowOptions::new().with_max_concurrency(7).max_concurrency, Some(7));
}

#[test]
fn prepare_execution_refuses_missing_dependency() {
    let wf = Workflow::new("wf".to_string())
        .add_task("a".to_string(), names(&["ghost"]), None);
    match wf.prepare_execution() {
        Err(ValidationError::MissingDependency { task, dependency }) => {
            assert_eq!(task, "a");
            assert_eq!(dependency, "ghost");
        }
        _ => panic!("expected a missing dependency"),
    }
}

#[test]
fn prepare_execution_starts_everything_pending() {
    let wf = Workflow::new("wf".to_string())
        .add_task("a".to_string(), vec![], None)
        .add_task("b".to_string(), names(&["a"]), None);
    let st = wf.prepare_execution().ok().unwrap();
    assert_eq!(st.task_count(), 2);
    assert_eq!(st.state_of(0), TaskState::Pending);
    assert_eq!(st.state_of(1), TaskState::Pending);
    assert_eq!(st.completions(), 0);
}

#[test]
fn status_by_task_keeps_last_entry_per_name() {
    let status = vec![
        ("a".to_string(), TaskState::Running, 1),
        ("b".to_string(), TaskState::Completed, 1),
        ("a".to_string(), TaskState::Failed, 2),
    ];
    let m = status_by_task(&status);
    assert_eq!(
        m,
        vec![
            ("a".to_string(), TaskState::Failed),
            ("b".to_string(), TaskState::Completed)
        ]
    );
    assert!(status_by_task(&vec![]).is_empty());
}
