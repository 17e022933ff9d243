use workflow_engine::memory_storage::{MemoryStorage, StorageError};
use workflow_engine::TaskState;

#[test]
fn create_then_read_gives_pending() {
    let mut s = MemoryStorage::new();
    assert!(s.init().is_ok());
    assert_eq!(s.get_task_state("t"), None);
    assert!(s.create_task_record("wf", "t").is_ok());
    assert_eq!(s.get_task_state("t"), Some((TaskState::Pending, 0)));
}

#[test]
fn update_then_read_gives_what_was_written() {
    let mut s = MemoryStorage::new();
    s.create_task_record("wf", "t").unwrap();
    assert!(s.update_task_state("t", TaskState::Running, 1).is_ok());
    assert_eq!(s.get_task_state("t"), Some((TaskState::Running, 1)));
    assert!(s.update_task_state("t", TaskState::Completed, 1).is_ok());
    assert_eq!(s.get_task_state("t"), Some((TaskState::Completed, 1)));
}

#[test]
fn update_of_unknown_task_fails_but_is_logged() {
    let mut s = MemoryStorage::new();
    let r = s.update_task_state("missing", TaskState::Failed, 0);
    assert_eq!(r, Err(StorageError::TaskNotFound));
    assert_eq!(StorageError::TaskNotFound.message(), "Task not found");
    assert_eq!(s.get_task_state("missing"), None);
    let calls = s.get_update_calls();
    assert_eq!(calls, vec![("missing".to_string(), TaskState::Failed, 0)]);
}

#[test]
fn update_calls_are_logged_in_order() {
    let mut s = MemoryStorage::new();
    s.create_task_record("wf", "a").unwrap();
    s.update_task_state("a", TaskState::Running, 1).unwrap();
    s.update_task_state("a", TaskState::Failed, 1).unwrap();
    assert_eq!(
        s.get_update_calls(),
        vec![
            ("a".to_string(), TaskState::Running, 1),
            ("a".to_string(), TaskState::Failed, 1)
        ]
    );
}

#[test]
fn recreating_a_record_resets_it() {
    let mut s = MemoryStorage::new();
    s.create_task_record("wf1", "a").unwrap();
    s.update_task_state("a", TaskState::Completed, 2).unwrap();
    s.create_task_record("wf2", "a").unwrap();
    assert_eq!(s.get_task_state("a"), Some((TaskState::Pending, 0)));
    assert!(s.get_workflow_status("wf1").unwrap().is_empty());
    assert_eq!(
        s.get_workflow_status("wf2").unwrap(),
        vec![("a".to_string(), TaskState::Pending, 0)]
    );
}

#[test]
fn workflow_status_lists_only_that_workflow() {
    let mut s = MemoryStorage::new();
    s.create_task_record("wf", "a").unwrap();
    s.create_task_record("other", "b").unwrap();
    s.create_task_record("wf", "c").unwrap();
    s.update_task_state("c", TaskState::Failed, 3).unwrap();
    assert_eq!(
        s.get_workflow_status("wf").unwrap(),
        vec![
            ("a".to_string(), TaskState::Pending, 0),
            ("c".to_string(), TaskState::Failed, 3)
        ]
    );
}
