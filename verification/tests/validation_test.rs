use workflow_engine::{validate_workflow_tasks, RetryPolicy, TaskWrapper, ValidationError};

fn create_task_wrapper(id: &str, deps: Vec<String>) -> TaskWrapper {
    TaskWrapper {
        id: id.to_string(),
        dependencies: deps,
        retry_policy: RetryPolicy::default(),
    }
}

#[test]
fn test_validate_workflow_valid() {
    let tasks = vec![
        create_task_wrapper("task1", vec![]),
        create_task_wrapper("task2", vec!["task1".to_string()]),
        create_task_wrapper("task3", vec!["task1".to_string(), "task2".to_string()]),
    ];

    let result = validate_workflow_tasks(&tasks);
    assert!(result.is_ok());
}

#[test]
fn test_validate_workflow_missing_dependency() {
    let tasks = vec![
        create_task_wrapper("task1", vec![]),
        create_task_wrapper("task2", vec!["non_existent".to_string()]),
    ];

    let result = validate_workflow_tasks(&tasks);
    assert!(result.is_err());
}

#[test]
fn test_validate_workflow_cycle() {
    let tasks = vec![
        create_task_wrapper("task1", vec!["task3".to_string()]),
        create_task_wrapper("task2", vec!["task1".to_string()]),
        create_task_wrapper("task3", vec!["task2".to_string()]),
    ];

    let result = validate_workflow_tasks(&tasks);
    assert!(result.is_err());
}

#[test]
fn test_validate_workflow_self_dependency() {
    let tasks = vec![create_task_wrapper("task1", vec!["task1".to_string()])];

    let result = validate_workflow_tasks(&tasks);
    assert!(result.is_err());
}

#[test]
fn validation_reports_first_missing_dependency() {
    let tasks = vec![
        create_task_wrapper("a", vec![]),
        create_task_wrapper("b", vec!["a".to_string(), "x".to_string(), "y".to_string()]),
        create_task_wrapper("c", vec!["z".to_string()]),
    ];
    match validate_workflow_tasks(&tasks) {
        Err(ValidationError::MissingDependency { task, dependency }) => {
            assert_eq!(task, "b");
            assert_eq!(dependency, "x");
        }
        other => panic!("unexpected result {:?}", other),
    }
    let e = validate_workflow_tasks(&tasks).unwrap_err();
    assert_eq!(e.message(), "Task 'b' depends on non-existent task 'x'");
}

#[test]
fn validation_prefers_missing_dependency_over_cycle() {
    let tasks = vec![
        create_task_wrapper("a", vec!["b".to_string()]),
        create_task_wrapper("b", vec!["a".to_string()]),
        create_task_wrapper("c", vec!["nope".to_string()]),
    ];
    match validate_workflow_tasks(&tasks) {
        Err(ValidationError::MissingDependency { task, dependency }) => {
            assert_eq!(task, "c");
            assert_eq!(dependency, "nope");
        }
        other => panic!("unexpected result {:?}", other),
    }
}

#[test]
fn validation_reports_first_task_reaching_a_cycle() {
    // "start" depends on the cycle b -> c -> b; "start" comes first.
    let tasks = vec![
        create_task_wrapper("start", vec!["b".to_string()]),
        create_task_wrapper("b", vec!["c".to_string()]),
        create_task_wrapper("c", vec!["b".to_string()]),
    ];
    match validate_workflow_tasks(&tasks) {
        Err(ValidationError::CyclicDependency { task }) => assert_eq!(task, "start"),
        other => panic!("unexpected result {:?}", other),
    }
    let e = validate_workflow_tasks(&tasks).unwrap_err();
    assert_eq!(
        e.message(),
        "Cyclic dependency detected starting from task 'start'"
    );
}

#[test]
fn validation_accepts_diamond_and_duplicates() {
    let tasks = vec![
        create_task_wrapper("d", vec!["b".to_string(), "c".to_string(), "b".to_string()]),
        create_task_wrapper("b", vec!["a".to_string()]),
        create_task_wrapper("c", vec!["a".to_string()]),
        create_task_wrapper("a", vec![]),
    ];
    assert!(validate_workflow_tasks(&tasks).is_ok());
}

#[test]
fn validation_of_empty_workflow_succeeds() {
    let tasks: Vec<TaskWrapper> = vec![];
    assert!(validate_workflow_tasks(&tasks).is_ok());
}
