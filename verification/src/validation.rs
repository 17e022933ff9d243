//! Checks that a workflow can run: every dependency names a task, and no task
//! depends on itself, directly or through others.
use crate::graph::{
    cycle_reachable, dfs_inv, graph_view, has_cycle, is_acyclic, is_node, lemma_finished_no_cycle,
    lemma_on_cycle_reachable, on_cycle, well_formed,
};
use crate::task_wrapper::{
    all_dependencies_exist, dep_name, dependency_graph, find_task, has_task, ids_distinct, index_of,
    is_missing, lemma_index_of, task_id, TaskWrapper,
};
use vstd::prelude::*;

verus! {

/// Why a workflow was refused.
#[derive(Clone, Debug)]
pub enum ValidationError {
    /// `task` lists `dependency`, which names no task of the workflow.
    MissingDependency { task: String, dependency: String },
    /// Following dependencies from `task` leads into a cycle.
    CyclicDependency { task: String },
}

/// The message that describes an error.
pub open spec fn error_message(e: ValidationError) -> Seq<char> {
    match e {
        ValidationError::MissingDependency { task, dependency } => "Task '"@ + task@
            + "' depends on non-existent task '"@ + dependency@ + "'"@,
        ValidationError::CyclicDependency { task } => "Cyclic dependency detected starting from task '"@
            + task@ + "'"@,
    }
}

impl ValidationError {
    /// A human-readable description of the error.
    pub fn message(&self) -> (res: String)
        ensures
            res@ == error_message(*self),
    {
        match self {
            ValidationError::MissingDependency { task, dependency } => {
                let mut m = "Task '".to_owned();
                m.append(task.as_str());
                m.append("' depends on non-existent task '");
                m.append(dependency.as_str());
                m.append("'");
                m
            },
            ValidationError::CyclicDependency { task } => {
                let mut m = "Cyclic dependency detected starting from task '".to_owned();
                m.append(task.as_str());
                m.append("'");
                m
            },
        }
    }
}

/// `(i, k)` is the first missing dependency, taking tasks in order and each
/// task's dependencies in order.
pub open spec fn first_missing(tasks: Seq<TaskWrapper>, i: int, k: int) -> bool {
    &&& is_missing(tasks, i, k)
    &&& forall|i2: int, k2: int| 0 <= i2 < i && #[trigger] is_missing(tasks, i2, k2) ==> false
    &&& forall|k2: int| 0 <= k2 < k ==> !#[trigger] is_missing(tasks, i, k2)
}

/// Task `s` is the first task (in order) from which a cycle can be reached.
pub open spec fn first_cycle_start(tasks: Seq<TaskWrapper>, s: int) -> bool {
    &&& 0 <= s < tasks.len()
    &&& cycle_reachable(dependency_graph(tasks), s)
    &&& forall|t: int| 0 <= t < s ==> !#[trigger] cycle_reachable(dependency_graph(tasks), t)
}

/// The outcome of validating `tasks`.
pub open spec fn validation_result(tasks: Seq<TaskWrapper>, r: Result<(), ValidationError>) -> bool {
    match r {
        Ok(()) => all_dependencies_exist(tasks) && is_acyclic(dependency_graph(tasks)),
        Err(ValidationError::MissingDependency { task, dependency }) => exists|i: int, k: int|
            #[trigger] first_missing(tasks, i, k) && task@ == task_id(tasks, i) && dependency@
                == dep_name(tasks, i, k),
        Err(ValidationError::CyclicDependency { task }) => all_dependencies_exist(tasks) && exists|
            s: int,
        | #[trigger] first_cycle_start(tasks, s) && task@ == task_id(tasks, s),
    }
}

/// Resolves every dependency name to the position of its task; stops at the
/// first name that matches no task.
pub(crate) fn resolve_dependencies(tasks: &Vec<TaskWrapper>) -> (res: Result<Vec<Vec<usize>>, ValidationError>)
    requires
        ids_distinct(tasks@),
    ensures
        match res {
            Ok(adj) => all_dependencies_exist(tasks@) && graph_view(&adj) == dependency_graph(
                tasks@,
            ),
            Err(e) => validation_result(tasks@, Err(e)) && e is MissingDependency,
        },
{
    let ghost ts = tasks@;
    let n = tasks.len();
    let mut adj: Vec<Vec<usize>> = Vec::new();
    for i in 0..n
        invariant
            n == ts.len(),
            ts == tasks@,
            ids_distinct(ts),
            adj@.len() == i,
            forall|i2: int| 0 <= i2 < i ==> #[trigger] adj@[i2]@ == dependency_graph(ts)[i2],
            forall|i2: int, k2: int| 0 <= i2 < i ==> !#[trigger] is_missing(ts, i2, k2),
    {
        let deps = &tasks[i].dependencies;
        let m = deps.len();
        let mut row: Vec<usize> = Vec::new();
        for k in 0..m
            invariant
                n == ts.len(),
                ts == tasks@,
                ids_distinct(ts),
                i < n,
                deps == &ts[i as int].dependencies,
                m == deps@.len(),
                row@.len() == k,
                forall|k2: int| 0 <= k2 < k ==> #[trigger] row@[k2] == dependency_graph(ts)[i as int][k2],
                forall|k2: int| 0 <= k2 < k ==> !#[trigger] is_missing(ts, i as int, k2),
                forall|i2: int, k2: int| 0 <= i2 < i ==> !#[trigger] is_missing(ts, i2, k2),
        {
            match find_task(tasks, &deps[k]) {
                Some(j) => {
                    proof {
                        lemma_index_of(ts, j as int);
                        assert(dep_name(ts, i as int, k as int) == task_id(ts, j as int));
                        assert(has_task(ts, dep_name(ts, i as int, k as int)));
                    }
                    row.push(j);
                },
                None => {
                    let e = ValidationError::MissingDependency {
                        task: tasks[i].id.clone(),
                        dependency: deps[k].clone(),
                    };
                    proof {
                        assert(first_missing(ts, i as int, k as int));
                    }
                    return Err(e);
                },
            }
        }
        proof {
            assert(row@ =~= dependency_graph(ts)[i as int]);
        }
        adj.push(row);
    }
    proof {
        assert forall|i: int, k: int| !#[trigger] is_missing(ts, i, k) by {
            if 0 <= i < n {
            }
        }
        assert(graph_view(&adj) =~= dependency_graph(ts));
    }
    Ok(adj)
}

/// The dependency graph of tasks whose dependencies all exist names only tasks.
pub(crate) proof fn lemma_dependency_graph_well_formed(tasks: Seq<TaskWrapper>)
    requires
        all_dependencies_exist(tasks),
    ensures
        well_formed(dependency_graph(tasks)),
{
    let g = dependency_graph(tasks);
    assert forall|i: int, k: int| 0 <= i < g.len() && 0 <= k < g[i].len() implies #[trigger] g[i][k]
        < g.len() by {
        assert(!is_missing(tasks, i, k));
        let name = dep_name(tasks, i, k);
        let j = index_of(tasks, name);
        assert(0 <= j < tasks.len());
    }
}

/// Checks that every dependency names a task and that no task can reach a
/// cycle of dependencies. Missing names are looked for first, task by task in
/// order; then a depth-first search runs from each task in order.
pub fn validate_workflow_tasks(tasks: &Vec<TaskWrapper>) -> (res: Result<(), ValidationError>)
    requires
        ids_distinct(tasks@),
    ensures
        validation_result(tasks@, res),
{
    let ghost ts = tasks@;
    let adj = match resolve_dependencies(tasks) {
        Ok(adj) => adj,
        Err(e) => return Err(e),
    };
    let ghost g = graph_view(&adj);
    proof {
        lemma_dependency_graph_well_formed(ts);
    }
    let n = tasks.len();
    let mut visited: Vec<bool> = Vec::new();
    let mut on_stack: Vec<bool> = Vec::new();
    let mut i: usize = 0;
    while i < n
        invariant
            i <= n,
            visited@.len() == i,
            on_stack@.len() == i,
            forall|j: int| 0 <= j < i ==> !#[trigger] visited@[j],
            forall|j: int| 0 <= j < i ==> !#[trigger] on_stack@[j],
        decreases n - i,
    {
        visited.push(false);
        on_stack.push(false);
        i = i + 1;
    }
    proof {
        assert(g.len() == n);
        assert forall|j: int| 0 <= j < g.len() implies (#[trigger] on_stack@[j] <==> Seq::<int>::empty().contains(j)) by {
            assert(!on_stack@[j]);
        }
        assert(dfs_inv(g, visited@, on_stack@, Seq::empty()));
    }
    for s in 0..n
        invariant
            g == graph_view(&adj),
            g == dependency_graph(ts),
            ts == tasks@,
            n == g.len(),
            well_formed(g),
            all_dependencies_exist(ts),
            dfs_inv(g, visited@, on_stack@, Seq::empty()),
            forall|t: int| 0 <= t < s ==> !#[trigger] cycle_reachable(g, t),
    {
        proof {
            assert(!Seq::<int>::empty().contains(s as int));
        }
        if has_cycle(&adj, s, &mut visited, &mut on_stack, Ghost(Seq::empty())) {
            let e = ValidationError::CyclicDependency { task: tasks[s].id.clone() };
            proof {
                assert(first_cycle_start(ts, s as int));
            }
            return Err(e);
        }
        proof {
            lemma_finished_no_cycle(g, visited@, on_stack@, Seq::empty(), s as int);
        }
    }
    proof {
        assert forall|v: int| is_node(g, v) implies !#[trigger] on_cycle(g, v) by {
            if on_cycle(g, v) {
                lemma_on_cycle_reachable(g, v);
            }
        }
    }
    Ok(())
}

} // verus!
