use workflow_engine::{ExecutionState, TaskState, Workflow};

fn names(v: &[&str]) -> Vec<String> {
    v.iter().map(|s| s.to_string()).collect()
}

/// Builds the run state of a workflow given as (name, dependencies) pairs.
fn run_of(tasks: &[(&str, &[&str])]) -> ExecutionState {
    let mut wf = Workflow::new("wf".to_string());
    for (name, deps) in tasks {
        wf = wf.add_task(name.to_string(), names(deps), None);
    }
    wf.prepare_execution().ok().unwrap()
}

#[test]
fn linear_workflow_runs_in_order() {
    // task1 <- task2 <- task3
    let mut st = run_of(&[("task1", &[]), ("task2", &["task1"]), ("task3", &["task2"])]);
    assert_eq!(st.start(), vec![0]);
    assert!(st.is_running(0));
    assert!(!st.is_running(1));
    let a = st.process_dependent_tasks(0, true);
    assert_eq!(a.ready, vec![1]);
    assert!(a.failed.is_empty());
    assert_eq!(st.state_of(0), TaskState::Completed);
    let a = st.process_dependent_tasks(1, true);
    assert_eq!(a.ready, vec![2]);
    let a = st.process_dependent_tasks(2, true);
    assert!(a.ready.is_empty());
    for i in 0..3 {
        assert_eq!(st.state_of(i), TaskState::Completed);
    }
    assert!(!st.record_completion());
    assert!(!st.record_completion());
    assert!(st.record_completion());
}

#[test]
fn start_hands_out_roots_once() {
    let mut st = run_of(&[("x", &[]), ("y", &["x"]), ("z", &[])]);
    assert_eq!(st.start(), vec![0, 2]);
    assert!(st.start().is_empty());
    assert_eq!(st.state_of(1), TaskState::Pending);
}

#[test]
fn diamond_waits_for_both_branches() {
    //     A
    //   /   \
    //  B     C
    //   \   /
    //     D
    let mut st = run_of(&[("A", &[]), ("B", &["A"]), ("C", &["A"]), ("D", &["B", "C"])]);
    assert_eq!(st.start(), vec![0]);
    assert_eq!(st.process_dependent_tasks(0, true).ready, vec![1, 2]);
    // D waits for C after B completes
    assert!(st.process_dependent_tasks(1, true).ready.is_empty());
    assert_eq!(st.state_of(3), TaskState::Pending);
    assert_eq!(st.process_dependent_tasks(2, true).ready, vec![3]);
    assert!(st.is_running(3));
}

#[test]
fn duplicate_dependency_counts_twice() {
    let mut st = run_of(&[("a", &[]), ("b", &["a", "a"])]);
    assert_eq!(st.start(), vec![0]);
    assert_eq!(st.process_dependent_tasks(0, true).ready, vec![1]);
}

#[test]
fn failed_dependency_marks_downstream_as_failed() {
    // task1 <- task2 (fails) <- task3
    let mut st = run_of(&[("task1", &[]), ("task2", &["task1"]), ("task3", &["task2"])]);
    assert_eq!(st.start(), vec![0]);
    assert_eq!(st.process_dependent_tasks(0, true).ready, vec![1]);
    let a = st.process_dependent_tasks(1, false);
    assert!(a.ready.is_empty());
    assert_eq!(a.failed, vec![2]);
    assert_eq!(st.state_of(0), TaskState::Completed);
    assert_eq!(st.state_of(1), TaskState::Failed);
    assert_eq!(st.state_of(2), TaskState::Failed);
}

#[test]
fn failure_in_complex_graph() {
    //      A
    //     / \
    //    B   C (fails)
    //   /     \
    //  D       E
    let mut st = run_of(&[
        ("A", &[]),
        ("B", &["A"]),
        ("C", &["A"]),
        ("D", &["B"]),
        ("E", &["C"]),
    ]);
    assert_eq!(st.start(), vec![0]);
    assert_eq!(st.process_dependent_tasks(0, true).ready, vec![1, 2]);
    let a = st.process_dependent_tasks(2, false);
    assert_eq!(a.failed, vec![4]);
    assert_eq!(st.process_dependent_tasks(1, true).ready, vec![3]);
    st.process_dependent_tasks(3, true);
    assert_eq!(st.state_of(0), TaskState::Completed);
    assert_eq!(st.state_of(1), TaskState::Completed);
    assert_eq!(st.state_of(2), TaskState::Failed);
    assert_eq!(st.state_of(3), TaskState::Completed);
    assert_eq!(st.state_of(4), TaskState::Failed);
}

#[test]
fn cascade_marks_a_task_once_per_route() {
    // A fails; B and C depend on A; D depends on both.
    let mut st = run_of(&[("A", &[]), ("B", &["A"]), ("C", &["A"]), ("D", &["B", "C"])]);
    st.start();
    let a = st.process_dependent_tasks(0, false);
    assert_eq!(a.failed, vec![1, 3, 2, 3]);
    for i in 0..4 {
        assert_eq!(st.state_of(i), TaskState::Failed);
    }
}

#[test]
fn failed_branch_never_releases_joined_task() {
    // D depends on B and C; B completes, C fails: D is failed, never started.
    let mut st = run_of(&[("A", &[]), ("B", &["A"]), ("C", &["A"]), ("D", &["B", "C"])]);
    st.start();
    st.process_dependent_tasks(0, true);
    assert!(st.process_dependent_tasks(1, true).ready.is_empty());
    assert_eq!(st.process_dependent_tasks(2, false).failed, vec![3]);
    assert_eq!(st.state_of(3), TaskState::Failed);
    assert!(!st.is_running(3));
}

#[test]
fn completions_count_up_to_task_count() {
    let mut st = run_of(&[("a", &[]), ("b", &[])]);
    assert_eq!(st.completions(), 0);
    assert!(!st.record_completion());
    assert_eq!(st.completions(), 1);
    assert!(st.record_completion());
}

#[test]
fn run_without_running_tasks_has_every_task_settled() {
    // A <- B <- D, A <- C, E independent; C fails.
    let mut st = run_of(&[
        ("A", &[]),
        ("B", &["A"]),
        ("C", &["A"]),
        ("D", &["B", "C"]),
        ("E", &[]),
    ]);
    let mut running: Vec<usize> = st.start();
    assert_eq!(running, vec![0, 4]);
    while let Some(t) = running.pop() {
        let ok = t != 2;
        let a = st.process_dependent_tasks(t, ok);
        running.extend(a.ready);
    }
    for i in 0..5 {
        assert!(!st.is_running(i));
        let s = st.state_of(i);
        assert!(s == TaskState::Completed || s == TaskState::Failed);
    }
    assert_eq!(st.state_of(2), TaskState::Failed);
    assert_eq!(st.state_of(3), TaskState::Failed);
    assert_eq!(st.state_of(1), TaskState::Completed);
}

#[test]
fn empty_run_is_finished_once_started() {
    let mut st = Workflow::new("empty".to_string()).prepare_execution().ok().unwrap();
    assert!(!st.is_finished());
    assert!(st.start().is_empty());
    assert!(st.is_finished());
}

#[test]
fn run_is_finished_only_when_every_task_settled() {
    let mut st = run_of(&[("a", &[]), ("b", &[])]);
    assert!(!st.is_finished());
    st.start();
    assert!(!st.is_finished());
    // two signals counted while both tasks still run: the count alone does not end the run
    st.record_completion();
    st.record_completion();
    assert!(!st.is_finished());
    st.process_dependent_tasks(0, true);
    assert!(!st.is_finished());
    st.process_dependent_tasks(1, false);
    assert!(st.is_finished());
}

#[test]
fn downstream_of_lists_the_cascade_without_changing_anything() {
    let mut st = run_of(&[("A", &[]), ("B", &["A"]), ("C", &["A"]), ("D", &["B", "C"])]);
    st.start();
    assert_eq!(st.downstream_of(0), vec![1, 3, 2, 3]);
    assert_eq!(st.state_of(1), TaskState::Pending);
    assert!(st.is_running(0));
    assert_eq!(st.process_dependent_tasks(0, false).failed, st.downstream_of(0));
}
