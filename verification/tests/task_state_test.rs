use workflow_engine::TaskState;

#[test]
fn test_task_state_as_str() {
    assert_eq!(TaskState::Pending.as_str(), "pending");
    assert_eq!(TaskState::Running.as_str(), "running");
    assert_eq!(TaskState::Completed.as_str(), "completed");
    assert_eq!(TaskState::Failed.as_str(), "failed");
}

#[test]
fn test_task_state_from_str() {
    assert_eq!(TaskState::from_str("pending"), Some(TaskState::Pending));
    assert_eq!(TaskState::from_str("running"), Some(TaskState::Running));
    assert_eq!(TaskState::from_str("completed"), Some(TaskState::Completed));
    assert_eq!(TaskState::from_str("failed"), Some(TaskState::Failed));
    assert_eq!(TaskState::from_str("invalid"), None);
}

#[test]
fn test_task_state_display() {
    assert_eq!(TaskState::Pending.to_string(), "pending");
    assert_eq!(TaskState::Running.to_string(), "running");
    assert_eq!(TaskState::Completed.to_string(), "completed");
    assert_eq!(TaskState::Failed.to_string(), "failed");
}

#[test]
fn task_state_name_round_trip() {
    for s in [TaskState::Pending, TaskState::Running, TaskState::Completed, TaskState::Failed] {
        assert_eq!(TaskState::from_str(s.as_str()), Some(s));
        assert_eq!(TaskState::from_str(&s.to_string()), Some(s));
    }
}

#[test]
fn task_state_from_str_is_exact() {
    assert_eq!(TaskState::from_str("Pending"), None);
    assert_eq!(TaskState::from_str("pending "), None);
    assert_eq!(TaskState::from_str(""), None);
    assert_eq!(TaskState::from_str("complete"), None);
}
