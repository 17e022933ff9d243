//! A workflow: a named set of tasks with their dependencies and retry
//! policies, and the preparation of a run.
use crate::graph::graph_view;
use crate::memory_storage::{call_view, CallView};
use crate::task_state::TaskState;
use crate::options::WorkflowOptions;
use crate::retry_policy::{duration_of_secs, RetryPolicy};
use crate::scheduler::ExecutionState;
use crate::task_wrapper::{dependency_graph, find_task, ids_distinct, task_id, TaskWrapper};
use crate::validation::{
    lemma_dependency_graph_well_formed, resolve_dependencies, validate_workflow_tasks, validation_result,
    ValidationError,
};
use vstd::prelude::*;

verus! {

/// The retry policy a task gets: the one given, or no retries.
pub open spec fn effective_policy(retry_policy: Option<RetryPolicy>) -> RetryPolicy {
    match retry_policy {
        Some(p) => p,
        None => RetryPolicy { max_retries: 0, retry_delay: duration_of_secs(0) },
    }
}

/// The tasks after adding `w`: it replaces the task of the same name, if there
/// is one, and otherwise comes last.
pub open spec fn tasks_after_add(tasks: Seq<TaskWrapper>, w: TaskWrapper) -> Seq<TaskWrapper> {
    if exists|j: int| 0 <= j < tasks.len() && #[trigger] task_id(tasks, j) == w.id@ {
        tasks.update(
            choose|j: int| 0 <= j < tasks.len() && #[trigger] task_id(tasks, j) == w.id@,
            w,
        )
    } else {
        tasks.push(w)
    }
}

/// A workflow definition.
pub struct Workflow {
    /// The tasks, in the order they were first added; names are unique.
    tasks: Vec<TaskWrapper>,
    /// Unique identifier for the workflow.
    workflow_id: String,
    /// Options for running the workflow.
    options: WorkflowOptions,
}

impl Workflow {
    #[verifier::type_invariant]
    spec fn names_unique(&self) -> bool {
        ids_distinct(self.tasks@)
    }

    /// The tasks of the workflow.
    pub closed spec fn task_list(&self) -> Seq<TaskWrapper> {
        self.tasks@
    }

    /// The workflow's identifier.
    pub closed spec fn id_view(&self) -> Seq<char> {
        self.workflow_id@
    }

    /// The workflow's options.
    pub closed spec fn options_view(&self) -> WorkflowOptions {
        self.options
    }

    /// An empty workflow called `workflow_id`.
    pub fn new(workflow_id: String) -> (res: Self)
        ensures
            res.task_list() == Seq::<TaskWrapper>::empty(),
            res.id_view() == workflow_id@,
            res.options_view().max_concurrency is None,
    {
        Workflow { tasks: Vec::new(), workflow_id, options: WorkflowOptions::new() }
    }

    /// Adds a task. A task of the same name is replaced; without a retry
    /// policy the task is not retried.
    pub fn add_task(self, id: String, dependencies: Vec<String>, retry_policy: Option<RetryPolicy>) -> (res: Self)
        ensures
            res.task_list() == tasks_after_add(
                self.task_list(),
                TaskWrapper { id, dependencies, retry_policy: effective_policy(retry_policy) },
            ),
            res.id_view() == self.id_view(),
            res.options_view() == self.options_view(),
            ids_distinct(res.task_list()),
            forall|j: int|
                0 <= j < res.task_list().len() && #[trigger] task_id(res.task_list(), j) == id@ ==> {
                    &&& res.task_list()[j].dependencies@ == dependencies@
                    &&& match retry_policy {
                        Some(p) => res.task_list()[j].retry_policy == p,
                        None => {
                            &&& res.task_list()[j].retry_policy.max_retries == 0
                            &&& res.task_list()[j].retry_policy.retry_delay == duration_of_secs(0)
                        },
                    }
                },
            exists|j: int| 0 <= j < res.task_list().len() && #[trigger] task_id(res.task_list(), j) == id@,
    {
        proof {
            use_type_invariant(&self);
        }
        let ghost given = (id, dependencies, retry_policy);
        let Workflow { tasks, workflow_id, options } = self;
        let mut tasks = tasks;
        let ghost old_tasks = tasks@;
        let policy = match retry_policy {
            Some(p) => p,
            None => RetryPolicy::default(),
        };
        let found = find_task(&tasks, &id);
        let w = TaskWrapper { id, dependencies, retry_policy: policy };
        match found {
            Some(j) => {
                tasks.set(j, w);
                proof {
                    let c = choose|c: int| 0 <= c < old_tasks.len() && #[trigger] task_id(old_tasks, c) == w.id@;
                    assert(c == j);
                    assert(tasks@ == tasks_after_add(old_tasks, w));
                    assert forall|a: int, b: int|
                        0 <= a < tasks@.len() && 0 <= b < tasks@.len() && a != b implies #[trigger] task_id(
                        tasks@,
                        a,
                    ) != #[trigger] task_id(tasks@, b) by {
                        if a != j && b != j {
                            assert(task_id(old_tasks, a) != task_id(old_tasks, b));
                        } else if a == j {
                            assert(task_id(old_tasks, j as int) != task_id(old_tasks, b));
                        } else {
                            assert(task_id(old_tasks, a) != task_id(old_tasks, j as int));
                        }
                    }
                }
            },
            None => {
                tasks.push(w);
                proof {
                    assert(tasks@ == tasks_after_add(old_tasks, w));
                    assert forall|a: int, b: int|
                        0 <= a < tasks@.len() && 0 <= b < tasks@.len() && a != b implies #[trigger] task_id(
                        tasks@,
                        a,
                    ) != #[trigger] task_id(tasks@, b) by {
                        if a < old_tasks.len() && b < old_tasks.len() {
                            assert(task_id(old_tasks, a) != task_id(old_tasks, b));
                        } else if a < old_tasks.len() {
                            assert(task_id(old_tasks, a) != w.id@);
                        } else {
                            assert(task_id(old_tasks, b) != w.id@);
                        }
                    }
                }
            },
        }
        proof {
            lemma_added_task_kept(old_tasks, given.0, given.1, given.2);
        }
        Workflow { tasks, workflow_id, options }
    }

    /// Sets the options used to run the workflow.
    pub fn with_options(self, options: WorkflowOptions) -> (res: Self)
        ensures
            res.task_list() == self.task_list(),
            res.id_view() == self.id_view(),
            res.options_view() == options,
    {
        proof {
            use_type_invariant(&self);
        }
        let Workflow { tasks, workflow_id, options: _ } = self;
        Workflow { tasks, workflow_id, options }
    }

    /// The tasks of the workflow, in the order they were first added.
    pub fn tasks(&self) -> (res: &Vec<TaskWrapper>)
        ensures
            res@ == self.task_list(),
            ids_distinct(res@),
    {
        proof {
            use_type_invariant(self);
        }
        &self.tasks
    }

    /// The workflow's identifier.
    pub fn workflow_id(&self) -> (res: &String)
        ensures
            res@ == self.id_view(),
    {
        &self.workflow_id
    }

    /// The workflow's options.
    pub fn options(&self) -> (res: WorkflowOptions)
        ensures
            res == self.options_view(),
    {
        self.options
    }

    /// Checks that the workflow can run; see `validate_workflow_tasks`.
    pub fn validate(&self) -> (res: Result<(), ValidationError>)
        ensures
            validation_result(self.task_list(), res),
    {
        proof {
            use_type_invariant(self);
        }
        validate_workflow_tasks(&self.tasks)
    }

    /// Validates the workflow and sets up the state of a run: every task
    /// pending, none started.
    pub fn prepare_execution(&self) -> (res: Result<ExecutionState, ValidationError>)
        ensures
            match res {
                Ok(st) => {
                    &&& validation_result(self.task_list(), Ok(()))
                    &&& st.wf()
                    &&& st.graph() == dependency_graph(self.task_list())
                    &&& st.states() == Seq::new(
                        self.task_list().len(),
                        |_i: int| crate::task_state::TaskState::Pending,
                    )
                    &&& !st.is_started()
                    &&& st.completion_count() == 0
                },
                Err(e) => validation_result(self.task_list(), Err(e)),
            },
    {
        proof {
            use_type_invariant(self);
        }
        match validate_workflow_tasks(&self.tasks) {
            Ok(()) => {},
            Err(e) => return Err(e),
        }
        match resolve_dependencies(&self.tasks) {
            Ok(adj) => {
                proof {
                    lemma_dependency_graph_well_formed(self.tasks@);
                    assert(graph_view(&adj).len() == adj@.len());
                    assert(dependency_graph(self.tasks@).len() == self.tasks@.len());
                    assert(adj@.len() == self.tasks@.len());
                }
                let st = ExecutionState::new(adj);
                Ok(st)
            },
            Err(e) => Err(e),
        }
    }
}

/// After a task is added, exactly one task carries its name, and it is the
/// task added; every other task is kept, in its place.
pub proof fn lemma_add_then_find(tasks: Seq<TaskWrapper>, w: TaskWrapper)
    requires
        ids_distinct(tasks),
    ensures
        ({
            let after = tasks_after_add(tasks, w);
            &&& ids_distinct(after)
            &&& exists|j: int| 0 <= j < after.len() && after[j] == w
            &&& forall|j: int| 0 <= j < tasks.len() && #[trigger] task_id(tasks, j) != w.id@ ==> after[j] == tasks[j]
        }),
{
    let after = tasks_after_add(tasks, w);
    if exists|j: int| 0 <= j < tasks.len() && #[trigger] task_id(tasks, j) == w.id@ {
        let j = choose|j: int| 0 <= j < tasks.len() && #[trigger] task_id(tasks, j) == w.id@;
        assert(after[j] == w);
        assert forall|a: int, b: int| 0 <= a < after.len() && 0 <= b < after.len() && a != b implies #[trigger] task_id(after, a)
            != #[trigger] task_id(after, b) by {
            if a != j && b != j {
                assert(task_id(tasks, a) != task_id(tasks, b));
            } else if a == j {
                assert(task_id(tasks, j) != task_id(tasks, b));
            } else {
                assert(task_id(tasks, a) != task_id(tasks, j));
            }
        }
    } else {
        assert(after[tasks.len() as int] == w);
        assert forall|a: int, b: int| 0 <= a < after.len() && 0 <= b < after.len() && a != b implies #[trigger] task_id(after, a)
            != #[trigger] task_id(after, b) by {
            if a < tasks.len() && b < tasks.len() {
                assert(task_id(tasks, a) != task_id(tasks, b));
            } else if a < tasks.len() {
                assert(task_id(tasks, a) != w.id@);
            } else {
                assert(task_id(tasks, b) != w.id@);
            }
        }
    }
}

/// After a task is added, the one task of its name has the dependencies
/// given and the retry policy given; added without a policy, it is never
/// retried and has no pause.
pub proof fn lemma_added_task_kept(
    tasks: Seq<TaskWrapper>,
    id: String,
    dependencies: Vec<String>,
    retry_policy: Option<RetryPolicy>,
)
    requires
        ids_distinct(tasks),
    ensures
        ({
            let after = tasks_after_add(
                tasks,
                TaskWrapper { id, dependencies, retry_policy: effective_policy(retry_policy) },
            );
            &&& exists|j: int| 0 <= j < after.len() && #[trigger] task_id(after, j) == id@
            &&& forall|j: int|
                0 <= j < after.len() && #[trigger] task_id(after, j) == id@ ==> {
                    &&& after[j].dependencies@ == dependencies@
                    &&& match retry_policy {
                        Some(p) => after[j].retry_policy == p,
                        None => {
                            &&& after[j].retry_policy.max_retries == 0
                            &&& after[j].retry_policy.retry_delay == duration_of_secs(0)
                        },
                    }
                }
        }),
{
    let w = TaskWrapper { id, dependencies, retry_policy: effective_policy(retry_policy) };
    let after = tasks_after_add(tasks, w);
    lemma_add_then_find(tasks, w);
    let k = choose|k: int| 0 <= k < after.len() && after[k] == w;
    assert(task_id(after, k) == id@);
    assert forall|j: int| 0 <= j < after.len() && #[trigger] task_id(after, j) == id@ implies after[j] == w by {
        if j != k {
            assert(task_id(after, j) != task_id(after, k));
        }
    }
}

/// The state of the last of the first `m` status entries that names `name`.
pub open spec fn last_state_upto(status: Seq<CallView>, name: Seq<char>, m: int) -> Option<TaskState>
    decreases m,
{
    if m <= 0 {
        None
    } else if status[m - 1].0 == name {
        Some(status[m - 1].1)
    } else {
        last_state_upto(status, name, m - 1)
    }
}

/// The state of the last status entry that names `name`.
pub open spec fn last_state(status: Seq<CallView>, name: Seq<char>) -> Option<TaskState> {
    last_state_upto(status, name, status.len() as int)
}

/// The task states of a workflow status, one entry per task name: the state of
/// the last entry for that name. Attempt counts are dropped.
pub open spec fn is_state_map(status: Seq<CallView>, res: Seq<(Seq<char>, TaskState)>) -> bool {
    &&& forall|a: int, b: int| 0 <= a < res.len() && 0 <= b < res.len() && a != b ==> #[trigger] res[a].0 != #[trigger] res[b].0
    &&& forall|j: int| 0 <= j < res.len() ==> last_state(status, #[trigger] res[j].0) == Some(res[j].1)
    &&& forall|i: int| 0 <= i < status.len() ==> #[trigger] names(res, status[i].0)
}

/// The state map from `status`'s prefix of length `m`.
pub open spec fn is_state_map_upto(status: Seq<CallView>, res: Seq<(Seq<char>, TaskState)>, m: int) -> bool {
    &&& forall|a: int, b: int| 0 <= a < res.len() && 0 <= b < res.len() && a != b ==> #[trigger] res[a].0 != #[trigger] res[b].0
    &&& forall|j: int| 0 <= j < res.len() ==> last_state_upto(status, #[trigger] res[j].0, m) == Some(res[j].1)
    &&& forall|i: int| 0 <= i < m ==> #[trigger] names(res, status[i].0)
}

/// Some entry of `res` is for `name`.
pub open spec fn names(res: Seq<(Seq<char>, TaskState)>, name: Seq<char>) -> bool {
    exists|j: int| 0 <= j < res.len() && #[trigger] res[j].0 == name
}

pub open spec fn pair_view(p: (String, TaskState)) -> (Seq<char>, TaskState) {
    (p.0@, p.1)
}

/// Turns a workflow status (task, state, attempts) into the state of each task;
/// where a task is listed twice, its last entry counts.
pub fn status_by_task(status: &Vec<(String, TaskState, usize)>) -> (res: Vec<(String, TaskState)>)
    ensures
        is_state_map(
            status@.map_values(|c: (String, TaskState, usize)| call_view(c)),
            res@.map_values(|p: (String, TaskState)| pair_view(p)),
        ),
{
    let ghost sv = status@.map_values(|c: (String, TaskState, usize)| call_view(c));
    let mut res: Vec<(String, TaskState)> = Vec::new();
    let n = status.len();
    let mut i: usize = 0;
    while i < n
        invariant
            n == status@.len(),
            sv == status@.map_values(|c: (String, TaskState, usize)| call_view(c)),
            i <= n,
            is_state_map_upto(sv, res@.map_values(|p: (String, TaskState)| pair_view(p)), i as int),
        decreases n - i,
    {
        let ghost rv = res@.map_values(|p: (String, TaskState)| pair_view(p));
        let name = &status[i].0;
        let state = status[i].1;
        proof {
            assert(sv[i as int].0 == name@ && sv[i as int].1 == state);
        }
        let m = res.len();
        let mut k: usize = 0;
        let mut found: Option<usize> = None;
        while k < m
            invariant_except_break
                found is None,
                forall|k2: int| 0 <= k2 < k ==> #[trigger] rv[k2].0 != name@,
            invariant
                m == res@.len(),
                rv == res@.map_values(|p: (String, TaskState)| pair_view(p)),
                k <= m,
            ensures
                match found {
                    Some(j) => j < m && rv[j as int].0 == name@,
                    None => forall|k2: int| 0 <= k2 < m ==> #[trigger] rv[k2].0 != name@,
                },
            decreases m - k,
        {
            if res[k].0 == *name {
                found = Some(k);
                proof {
                    assert(rv[k as int].0 == res@[k as int].0@);
                }
                break;
            }
            proof {
                assert(rv[k as int].0 == res@[k as int].0@);
            }
            k = k + 1;
        }
        proof {
            if let Some(j) = found {
                assert(rv[j as int].0 == name@);
            }
        }
        match found {
            Some(j) => {
                res.set(j, (name.clone(), state));
                proof {
                    let rv2 = res@.map_values(|p: (String, TaskState)| pair_view(p));
                    assert(rv2 =~= rv.update(j as int, (name@, state)));
                    assert forall|jj: int| 0 <= jj < rv2.len() implies last_state_upto(sv, #[trigger] rv2[jj].0, i + 1)
                        == Some(rv2[jj].1) by {
                        if jj != j {
                            assert(rv[jj].0 != rv[j as int].0);
                        }
                    }
                    assert forall|ii: int| 0 <= ii < i + 1 implies #[trigger] names(rv2, sv[ii].0) by {
                        if ii == i {
                            assert(rv2[j as int].0 == sv[ii].0);
                        } else {
                            assert(names(rv, sv[ii].0));
                            let jj = choose|jj: int| 0 <= jj < rv.len() && #[trigger] rv[jj].0 == sv[ii].0;
                            if jj == j {
                                assert(rv2[j as int].0 == sv[ii].0);
                            } else {
                                assert(rv2[jj].0 == sv[ii].0);
                            }
                        }
                    }
                    assert forall|a: int, b: int| 0 <= a < rv2.len() && 0 <= b < rv2.len() && a != b implies #[trigger] rv2[a].0
                        != #[trigger] rv2[b].0 by {
                        assert(rv[a].0 != rv[b].0);
                    }
                }
            },
            None => {
                res.push((name.clone(), state));
                proof {
                    let rv2 = res@.map_values(|p: (String, TaskState)| pair_view(p));
                    assert(rv2 =~= rv.push((name@, state)));
                    assert forall|jj: int| 0 <= jj < rv2.len() implies last_state_upto(sv, #[trigger] rv2[jj].0, i + 1)
                        == Some(rv2[jj].1) by {
                        if jj < rv.len() {
                            assert(rv[jj].0 != name@);
                        }
                    }
                    assert forall|ii: int| 0 <= ii < i + 1 implies #[trigger] names(rv2, sv[ii].0) by {
                        if ii == i {
                            assert(rv2[rv.len() as int].0 == sv[ii].0);
                        } else {
                            assert(names(rv, sv[ii].0));
                            let jj = choose|jj: int| 0 <= jj < rv.len() && #[trigger] rv[jj].0 == sv[ii].0;
                            assert(rv2[jj].0 == sv[ii].0);
                        }
                    }
                    assert forall|a: int, b: int| 0 <= a < rv2.len() && 0 <= b < rv2.len() && a != b implies #[trigger] rv2[a].0
                        != #[trigger] rv2[b].0 by {
                        if a < rv.len() && b < rv.len() {
                            assert(rv[a].0 != rv[b].0);
                        }
                    }
                }
            },
        }
        i = i + 1;
    }
    proof {
        assert(sv.len() == n);
        let rv = res@.map_values(|p: (String, TaskState)| pair_view(p));
        assert forall|j: int| 0 <= j < rv.len() implies last_state(sv, #[trigger] rv[j].0) == Some(rv[j].1) by {
            assert(last_state_upto(sv, rv[j].0, n as int) == Some(rv[j].1));
        }
        assert(is_state_map_upto(sv, rv, n as int));
        assert forall|i: int| 0 <= i < sv.len() implies #[trigger] names(rv, sv[i].0) by {
            assert(0 <= i < n);
        }
        assert(is_state_map(sv, rv));
    }
    res
}

} // verus!
