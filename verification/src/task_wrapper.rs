//! A task as the engine sees it: its name, what it depends on, and how it is retried.
use crate::retry_policy::RetryPolicy;
use vstd::prelude::*;

verus! {

/// A task of a workflow, without the work it performs.
#[derive(Clone, Debug)]
pub struct TaskWrapper {
    /// The task's name, unique within its workflow.
    pub id: String,
    /// Names of the tasks that must complete before this one starts.
    pub dependencies: Vec<String>,
    /// Policy for retrying the task on failure.
    pub retry_policy: RetryPolicy,
}

/// The name of task `i`.
pub open spec fn task_id(tasks: Seq<TaskWrapper>, i: int) -> Seq<char> {
    tasks[i].id@
}

/// The number of dependencies task `i` lists (a name listed twice counts twice).
pub open spec fn dep_count(tasks: Seq<TaskWrapper>, i: int) -> int {
    tasks[i].dependencies@.len() as int
}

/// The `k`-th dependency name of task `i`.
pub open spec fn dep_name(tasks: Seq<TaskWrapper>, i: int, k: int) -> Seq<char> {
    tasks[i].dependencies@[k]@
}

/// No two tasks share a name.
pub open spec fn ids_distinct(tasks: Seq<TaskWrapper>) -> bool {
    forall|i: int, j: int|
        0 <= i < tasks.len() && 0 <= j < tasks.len() && i != j ==> #[trigger] task_id(tasks, i)
            != #[trigger] task_id(tasks, j)
}

/// Some task is called `name`.
pub open spec fn has_task(tasks: Seq<TaskWrapper>, name: Seq<char>) -> bool {
    exists|j: int| 0 <= j < tasks.len() && #[trigger] task_id(tasks, j) == name
}

/// The position of the task called `name` (meaningful when there is one).
pub open spec fn index_of(tasks: Seq<TaskWrapper>, name: Seq<char>) -> int {
    choose|j: int| 0 <= j < tasks.len() && #[trigger] task_id(tasks, j) == name
}

/// The `k`-th dependency of task `i` names no task of the workflow.
pub open spec fn is_missing(tasks: Seq<TaskWrapper>, i: int, k: int) -> bool {
    &&& 0 <= i < tasks.len()
    &&& 0 <= k < dep_count(tasks, i)
    &&& !has_task(tasks, dep_name(tasks, i, k))
}

/// Every dependency names a task of the workflow.
pub open spec fn all_dependencies_exist(tasks: Seq<TaskWrapper>) -> bool {
    forall|i: int, k: int| !#[trigger] is_missing(tasks, i, k)
}

/// The dependency graph: node `i` points to the tasks that task `i` depends on,
/// one entry per listed dependency.
pub open spec fn dependency_graph(tasks: Seq<TaskWrapper>) -> Seq<Seq<usize>> {
    Seq::new(
        tasks.len(),
        |i: int|
            Seq::new(
                tasks[i].dependencies@.len(),
                |k: int| index_of(tasks, dep_name(tasks, i, k)) as usize,
            ),
    )
}

/// Finds the position of the task called `name`.
pub fn find_task(tasks: &Vec<TaskWrapper>, name: &String) -> (res: Option<usize>)
    ensures
        match res {
            Some(j) => j < tasks@.len() && task_id(tasks@, j as int) == name@,
            None => !has_task(tasks@, name@),
        },
{
    let n = tasks.len();
    for j in 0..n
        invariant
            n == tasks@.len(),
            forall|j2: int| 0 <= j2 < j ==> #[trigger] task_id(tasks@, j2) != name@,
    {
        if tasks[j].id == *name {
            return Some(j);
        }
    }
    None
}

/// With distinct names, the name of a task finds that task.
pub proof fn lemma_index_of(tasks: Seq<TaskWrapper>, j: int)
    requires
        ids_distinct(tasks),
        0 <= j < tasks.len(),
    ensures
        index_of(tasks, task_id(tasks, j)) == j,
{
    let name = task_id(tasks, j);
    assert(has_task(tasks, name));
    let j2 = index_of(tasks, name);
    assert(task_id(tasks, j2) == name);
}

} // verus!
