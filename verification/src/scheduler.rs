//! The decisions of a workflow run, as a state machine: which tasks start
//! first, which tasks become ready when a task completes, which tasks are
//! marked failed when a task fails, and when the run is over. The caller runs
//! the tasks and reports back; every decision is made here.
use crate::cascade::{
    ancestors, cascade, cascade_from, cascade_member_ok, cascade_ok, depends_transitively, descendants,
    has_dep_among, lemma_ancestors_shrink, lemma_cascade_complete, lemma_cascade_members,
    lemma_depends_trans, lemma_descendants_shrink,
};
use crate::dependency::{
    build_dependency_graph, count_in, dependents_of, lemma_count_in_pos, lemma_count_in_take_le,
    lemma_count_in_take_step, lemma_dependents_count, lemma_dependents_edge, lemma_dependents_sorted,
};
use crate::graph::{
    edge, graph_view, is_acyclic, is_node, is_path, lemma_no_self_edge, reaches, step_ok, well_formed,
};
use crate::task_state::TaskState;
use vstd::prelude::*;

verus! {

/// Number of dependencies of a task that have not completed.
pub open spec fn pending_deps(deps: Seq<usize>, states: Seq<TaskState>) -> nat
    decreases deps.len(),
{
    if deps.len() == 0 {
        0
    } else {
        pending_deps(deps.drop_last(), states) + if states[deps.last() as int]
            == TaskState::Completed {
            0nat
        } else {
            1nat
        }
    }
}

/// Every dependency of task `i` has completed.
pub open spec fn deps_completed(g: Seq<Seq<usize>>, states: Seq<TaskState>, i: int) -> bool {
    forall|k: int| 0 <= k < g[i].len() ==> states[#[trigger] g[i][k] as int] == TaskState::Completed
}

/// Some dependency of task `i` has failed.
pub open spec fn some_dep_failed(g: Seq<Seq<usize>>, states: Seq<TaskState>, i: int) -> bool {
    exists|k: int| 0 <= k < g[i].len() && states[#[trigger] g[i][k] as int] == TaskState::Failed
}

/// A task that has been started (running or completed) only started after all
/// of its dependencies completed.
pub open spec fn started_after_deps(g: Seq<Seq<usize>>, states: Seq<TaskState>) -> bool {
    forall|i: int|
        0 <= i < g.len() && (#[trigger] states[i] == TaskState::Running || states[i]
            == TaskState::Completed) ==> deps_completed(g, states, i)
}

/// A failed task either ran (all its dependencies had completed) or was
/// marked failed because a dependency failed.
pub open spec fn failed_for_cause(g: Seq<Seq<usize>>, states: Seq<TaskState>) -> bool {
    forall|i: int|
        0 <= i < g.len() && #[trigger] states[i] == TaskState::Failed ==> deps_completed(g, states, i)
            || some_dep_failed(g, states, i)
}

/// Every task downstream of a failed task has failed too.
pub open spec fn failure_spread(g: Seq<Seq<usize>>, states: Seq<TaskState>) -> bool {
    forall|f: int, x: int|
        0 <= f < g.len() && 0 <= x < g.len() && states[f] == TaskState::Failed
            && #[trigger] depends_transitively(g, x, f) ==> states[x] == TaskState::Failed
}

/// A task is settled once it has completed or failed.
pub open spec fn settled(s: TaskState) -> bool {
    s == TaskState::Completed || s == TaskState::Failed
}

/// Every task has completed or failed.
pub open spec fn all_settled(states: Seq<TaskState>) -> bool {
    forall|i: int| 0 <= i < states.len() ==> #[trigger] settled(states[i])
}

/// The run's state.
pub struct ExecutionState {
    /// Resolved dependencies: `graph[i]` lists the tasks that task `i` depends on.
    graph: Vec<Vec<usize>>,
    /// Tasks that depend on each task.
    dependents: Vec<Vec<usize>>,
    /// Number of dependencies of each task that have not completed.
    in_degree: Vec<usize>,
    /// The state of each task.
    states: Vec<TaskState>,
    /// Whether the initial tasks have been handed out.
    started: bool,
    /// Number of completion signals counted so far.
    completions: usize,
}

impl ExecutionState {
    /// The dependency graph of the run.
    pub closed spec fn graph(&self) -> Seq<Seq<usize>> {
        graph_view(&self.graph)
    }

    /// The state of each task.
    pub closed spec fn states(&self) -> Seq<TaskState> {
        self.states@
    }

    /// Whether the initial tasks have been handed out.
    pub closed spec fn is_started(&self) -> bool {
        self.started
    }

    /// Number of completion signals counted so far.
    pub closed spec fn completion_count(&self) -> nat {
        self.completions as nat
    }

    /// The internal consistency of the run's state.
    pub closed spec fn wf(&self) -> bool {
        let g = self.graph();
        let n = g.len();
        &&& cascade_ok(g)
        &&& self.dependents@.len() == n
        &&& self.in_degree@.len() == n
        &&& self.states@.len() == n
        &&& forall|j: int| 0 <= j < n ==> #[trigger] self.dependents@[j]@ == dependents_of(g, j)
        &&& forall|i: int|
            0 <= i < n ==> #[trigger] self.in_degree@[i] == pending_deps(g[i], self.states@)
        &&& started_after_deps(g, self.states@)
        &&& failed_for_cause(g, self.states@)
        &&& failure_spread(g, self.states@)
        &&& self.started ==> forall|i: int|
            0 <= i < n && #[trigger] self.states@[i] == TaskState::Pending ==> self.in_degree@[i] > 0
        &&& !self.started ==> forall|i: int|
            0 <= i < n ==> #[trigger] self.states@[i] == TaskState::Pending
    }
}

/// With every task pending, a task's pending count is its number of dependencies.
proof fn lemma_pending_all(deps: Seq<usize>, states: Seq<TaskState>)
    requires
        forall|k: int| 0 <= k < deps.len() ==> states[#[trigger] deps[k] as int] != TaskState::Completed,
    ensures
        pending_deps(deps, states) == deps.len(),
    decreases deps.len(),
{
    if deps.len() > 0 {
        assert(states[deps[deps.len() - 1] as int] != TaskState::Completed);
        lemma_pending_all(deps.drop_last(), states);
    }
}

/// No pending dependency means every dependency completed, and back.
proof fn lemma_pending_zero(deps: Seq<usize>, states: Seq<TaskState>)
    ensures
        pending_deps(deps, states) == 0 <==> forall|k: int|
            0 <= k < deps.len() ==> states[#[trigger] deps[k] as int] == TaskState::Completed,
    decreases deps.len(),
{
    if deps.len() > 0 {
        lemma_pending_zero(deps.drop_last(), states);
        if pending_deps(deps, states) == 0 {
            assert forall|k: int| 0 <= k < deps.len() implies states[#[trigger] deps[k] as int]
                == TaskState::Completed by {
                if k < deps.len() - 1 {
                    assert(deps.drop_last()[k] == deps[k]);
                }
            }
        } else {
            if forall|k: int| 0 <= k < deps.len() ==> states[#[trigger] deps[k] as int] == TaskState::Completed {
                assert forall|k: int| 0 <= k < deps.drop_last().len() implies states[#[trigger] deps.drop_last()[k] as int]
                    == TaskState::Completed by {
                    assert(deps.drop_last()[k] == deps[k]);
                }
                assert(states[deps[deps.len() - 1] as int] == TaskState::Completed);
            }
        }
    }
}

/// Pending counts only look at which tasks completed.
proof fn lemma_pending_same(deps: Seq<usize>, a: Seq<TaskState>, b: Seq<TaskState>)
    requires
        forall|k: int| 0 <= k < deps.len() ==> (a[#[trigger] deps[k] as int] == TaskState::Completed
            <==> b[deps[k] as int] == TaskState::Completed),
    ensures
        pending_deps(deps, a) == pending_deps(deps, b),
    decreases deps.len(),
{
    if deps.len() > 0 {
        assert(a[deps[deps.len() - 1] as int] == TaskState::Completed <==> b[deps[deps.len() - 1] as int]
            == TaskState::Completed);
        assert forall|k: int| 0 <= k < deps.drop_last().len() implies (a[#[trigger] deps.drop_last()[k] as int]
            == TaskState::Completed <==> b[deps.drop_last()[k] as int] == TaskState::Completed) by {
            assert(deps.drop_last()[k] == deps[k]);
        }
        lemma_pending_same(deps.drop_last(), a, b);
    }
}

/// When task `t` completes, the pending count of each task drops by the number
/// of times it lists `t`.
proof fn lemma_pending_complete(deps: Seq<usize>, a: Seq<TaskState>, b: Seq<TaskState>, t: int)
    requires
        a.len() == b.len(),
        0 <= t < a.len(),
        forall|k: int| 0 <= k < deps.len() ==> #[trigger] deps[k] < a.len(),
        a[t] != TaskState::Completed,
        b[t] == TaskState::Completed,
        forall|x: int|
            0 <= x < a.len() && x != t ==> (#[trigger] a[x] == TaskState::Completed <==> b[x]
                == TaskState::Completed),
    ensures
        pending_deps(deps, a) == pending_deps(deps, b) + count_in(deps, t),
    decreases deps.len(),
{
    if deps.len() > 0 {
        assert forall|k: int| 0 <= k < deps.drop_last().len() implies #[trigger] deps.drop_last()[k] < a.len() by {
            assert(deps.drop_last()[k] == deps[k]);
        }
        lemma_pending_complete(deps.drop_last(), a, b, t);
        let x = deps[deps.len() - 1] as int;
        assert(deps[deps.len() - 1] < a.len());
        if x != t {
            assert(a[x] == TaskState::Completed <==> b[x] == TaskState::Completed);
        }
    }
}

/// A dependency that has not completed is pending each time it is listed.
proof fn lemma_pending_ge_count(deps: Seq<usize>, states: Seq<TaskState>, t: int)
    requires
        states[t] != TaskState::Completed,
    ensures
        count_in(deps, t) <= pending_deps(deps, states),
    decreases deps.len(),
{
    if deps.len() > 0 {
        lemma_pending_ge_count(deps.drop_last(), states, t);
    }
}

impl ExecutionState {
    /// A run over the given dependency graph, with every task pending.
    pub(crate) fn new(graph: Vec<Vec<usize>>) -> (res: Self)
        requires
            well_formed(graph_view(&graph)),
            is_acyclic(graph_view(&graph)),
        ensures
            res.wf(),
            res.graph() == graph_view(&graph),
            res.states() == Seq::new(graph@.len(), |_i: int| TaskState::Pending),
            !res.is_started(),
            res.completion_count() == 0,
    {
        let dg = build_dependency_graph(&graph);
        let n = graph.len();
        let mut states: Vec<TaskState> = Vec::new();
        let mut i: usize = 0;
        while i < n
            invariant
                i <= n,
                states@.len() == i,
                forall|j: int| 0 <= j < i ==> #[trigger] states@[j] == TaskState::Pending,
            decreases n - i,
        {
            states.push(TaskState::Pending);
            i = i + 1;
        }
        let res = ExecutionState {
            graph,
            dependents: dg.dependents,
            in_degree: dg.in_degree,
            states,
            started: false,
            completions: 0,
        };
        proof {
            let g = res.graph();
            assert forall|i: int| 0 <= i < n implies #[trigger] res.in_degree@[i] == pending_deps(
                g[i],
                res.states@,
            ) by {
                assert forall|k: int| 0 <= k < g[i].len() implies res.states@[#[trigger] g[i][k] as int]
                    != TaskState::Completed by {
                    assert(g[i][k] < n);
                }
                lemma_pending_all(g[i], res.states@);
            }
            assert(res.states@ =~= Seq::new(n as nat, |_i: int| TaskState::Pending));
        }
        res
    }

    /// Number of tasks in the run.
    pub fn task_count(&self) -> (n: usize)
        requires
            self.wf(),
        ensures
            n == self.graph().len(),
    {
        self.graph.len()
    }

    /// The state of task `i`.
    pub fn state_of(&self, i: usize) -> (s: TaskState)
        requires
            self.wf(),
            i < self.graph().len(),
        ensures
            s == self.states()[i as int],
    {
        self.states[i]
    }

    /// Whether task `i` is running (handed out and not yet reported back).
    pub fn is_running(&self, i: usize) -> (b: bool)
        requires
            self.wf(),
        ensures
            b == (i < self.graph().len() && self.states()[i as int] == TaskState::Running),
    {
        i < self.states.len() && self.states[i] == TaskState::Running
    }

    /// Hands out the tasks that can start at once: those without dependencies,
    /// in task order. Each becomes running. A second call hands out nothing.
    pub fn start(&mut self) -> (ready: Vec<usize>)
        requires
            old(self).wf(),
        ensures
            final(self).wf(),
            final(self).is_started(),
            final(self).graph() == old(self).graph(),
            final(self).completion_count() == old(self).completion_count(),
            old(self).is_started() ==> ready@.len() == 0 && final(self).states() == old(self).states(),
            !old(self).is_started() ==> {
                &&& ready@ == initial_tasks(old(self).graph())
                &&& lists_exactly_the_roots(old(self).graph(), ready@)
                &&& final(self).states() == Seq::new(
                    old(self).graph().len(),
                    |i: int|
                        if old(self).graph()[i].len() == 0 {
                            TaskState::Running
                        } else {
                            TaskState::Pending
                        },
                )
            },
    {
        let mut ready: Vec<usize> = Vec::new();
        if self.started {
            return ready;
        }
        let ghost g = self.graph();
        let ghost old_states = self.states@;
        let n = self.graph.len();
        proof {
            assert forall|j: int| 0 <= j < n implies #[trigger] self.in_degree@[j] == g[j].len() by {
                assert forall|k: int| 0 <= k < g[j].len() implies old_states[#[trigger] g[j][k] as int]
                    != TaskState::Completed by {
                    assert(g[j][k] < n);
                }
                lemma_pending_all(g[j], old_states);
            }
        }
        let mut i: usize = 0;
        while i < n
            invariant
                g == self.graph(),
                n == g.len(),
                cascade_ok(g),
                i <= n,
                !self.started,
                self.dependents@.len() == n,
                self.in_degree@.len() == n,
                self.states@.len() == n,
                forall|j: int| 0 <= j < n ==> #[trigger] self.dependents@[j]@ == dependents_of(g, j),
                forall|j: int| 0 <= j < n ==> #[trigger] self.in_degree@[j] == g[j].len(),
                forall|j: int| 0 <= j < n ==> #[trigger] old_states[j] == TaskState::Pending,
                forall|j: int|
                    0 <= j < n ==> #[trigger] self.states@[j] == if j < i && g[j].len() == 0 {
                        TaskState::Running
                    } else {
                        TaskState::Pending
                    },
                ready@ == initial_tasks_upto(g, i as int),
                self.completions == old(self).completions,
            decreases n - i,
        {
            if self.in_degree[i] == 0 {
                self.states.set(i, TaskState::Running);
                ready.push(i);
            }
            i = i + 1;
        }
        self.started = true;
        proof {
            lemma_initial_tasks(g);
            let st = self.states@;
            assert forall|j: int| 0 <= j < n implies #[trigger] self.in_degree@[j] == pending_deps(
                g[j],
                st,
            ) by {
                assert forall|k: int| 0 <= k < g[j].len() implies st[#[trigger] g[j][k] as int]
                    != TaskState::Completed by {
                    assert(g[j][k] < n);
                }
                lemma_pending_all(g[j], st);
            }
            assert(started_after_deps(g, st));
            assert(failed_for_cause(g, st));
            assert(st =~= Seq::new(
                g.len(),
                |i: int|
                    if g[i].len() == 0 {
                        TaskState::Running
                    } else {
                        TaskState::Pending
                    },
            ));
        }
        ready
    }

    /// Task `t` completed: each task that depends on it has one dependency
    /// fewer to wait for, and those with none left become running. Returns them
    /// in task order.
    fn complete_task(&mut self, t: usize) -> (ready: Vec<usize>)
        requires
            old(self).wf(),
            t < old(self).graph().len(),
            old(self).states()[t as int] == TaskState::Running,
        ensures
            final(self).wf(),
            final(self).graph() == old(self).graph(),
            final(self).is_started() == old(self).is_started(),
            final(self).completion_count() == old(self).completion_count(),
            final(self).states() == after_completion(old(self).graph(), old(self).states(), t as int),
            strictly_increasing(ready@),
            forall|q: int|
                0 <= q < ready@.len() ==> becomes_ready(
                    old(self).graph(),
                    old(self).states(),
                    t as int,
                    #[trigger] ready@[q] as int,
                ) && old(self).states()[ready@[q] as int] == TaskState::Pending,
            forall|i: int|
                becomes_ready(old(self).graph(), old(self).states(), t as int, i) ==> exists|q: int|
                    0 <= q < ready@.len() && #[trigger] ready@[q] == i,
    {
        let ghost g = self.graph();
        let ghost n = g.len();
        let ghost s0 = self.states@;
        let ghost in0 = self.in_degree@;
        self.states.set(t, TaskState::Completed);
        let ghost s1 = self.states@;
        proof {
            assert(s1 == s0.update(t as int, TaskState::Completed));
            assert forall|i: int| 0 <= i < n implies pending_deps(#[trigger] g[i], s0) == pending_deps(g[i], s1)
                + count_in(g[i], t as int) by {
                assert forall|k: int| 0 <= k < g[i].len() implies #[trigger] g[i][k] < s0.len() by {}
                lemma_pending_complete(g[i], s0, s1, t as int);
            }
            // the run has started: a task is running
            assert(self.started);
        }
        let dl = &self.dependents[t];
        let len = dl.len();
        let ghost dls = dl@;
        proof {
            assert(dls == dependents_of(g, t as int));
            assert(dls.take(0) =~= Seq::<usize>::empty());
            assert forall|i: int| 0 <= i < n && becomes_ready(g, s0, t as int, i) implies count_in(dls, i) > 0 by {
                lemma_dependents_count(g, t as int, n as int, i);
                lemma_count_in_pos(g[i], t as int);
            }
        }
        let mut ready: Vec<usize> = Vec::new();
        let mut p: usize = 0;
        while p < len
            invariant
                g == self.graph(),
                n == g.len(),
                cascade_ok(g),
                t < n,
                dl@ == dls,
                dls == dependents_of(g, t as int),
                len == dls.len(),
                p <= len,
                s1 == s0.update(t as int, TaskState::Completed),
                s0[t as int] == TaskState::Running,
                self.started,
                self.completions == old(self).completions,
                self.dependents@.len() == n,
                forall|j: int| 0 <= j < n ==> #[trigger] self.dependents@[j]@ == dependents_of(g, j),
                s0.len() == n,
                in0.len() == n,
                self.in_degree@.len() == n,
                self.states@.len() == n,
                forall|i: int| 0 <= i < n ==> #[trigger] in0[i] == pending_deps(g[i], s0),
                forall|i: int|
                    0 <= i < n ==> pending_deps(#[trigger] g[i], s0) == pending_deps(g[i], s1) + count_in(
                        g[i],
                        t as int,
                    ),
                forall|i: int|
                    0 <= i < n ==> #[trigger] self.in_degree@[i] == in0[i] - count_in(
                        dls.take(p as int),
                        i,
                    ),
                forall|i: int|
                    0 <= i < n ==> #[trigger] self.states@[i] == if count_in(dls, i) > 0 && count_in(
                        dls.take(p as int),
                        i,
                    ) == count_in(dls, i) && pending_deps(g[i], s1) == 0 {
                        TaskState::Running
                    } else {
                        s1[i]
                    },
                strictly_increasing(ready@),
                forall|q: int|
                    0 <= q < ready@.len() ==> {
                        &&& becomes_ready(g, s0, t as int, #[trigger] ready@[q] as int)
                        &&& count_in(dls.take(p as int), ready@[q] as int) == count_in(dls, ready@[q] as int)
                    },
                forall|q: int, r: int|
                    0 <= q < ready@.len() && p <= r < len ==> #[trigger] ready@[q] < #[trigger] dls[r],
                forall|i: int|
                    0 <= i < n && becomes_ready(g, s0, t as int, i) && count_in(dls.take(p as int), i)
                        == count_in(dls, i) ==> exists|q: int| 0 <= q < ready@.len() && #[trigger] ready@[q] == i,
            decreases len - p,
        {
            let i = dl[p];
            proof {
                lemma_dependents_edge(g, t as int, n as int, p as int);
                lemma_count_in_take_step(dls, p as int, i as int);
                lemma_count_in_take_le(dls, p + 1, i as int);
                lemma_dependents_count(g, t as int, n as int, i as int);
                lemma_pending_ge_count(g[i as int], s0, t as int);
                assert(self.in_degree@[i as int] >= 1);
            }
            let ghost old_ready = ready@;
            let c = self.in_degree[i] - 1;
            self.in_degree.set(i, c);
            if c == 0 {
                self.states.set(i, TaskState::Running);
                ready.push(i);
                proof {
                    assert(pending_deps(g[i as int], s1) == 0);
                    lemma_pending_zero(g[i as int], s1);
                    lemma_count_in_pos(g[i as int], t as int);
                    assert(edge(g, i as int, t as int));
                    assert(becomes_ready(g, s0, t as int, i as int));
                }
            }
            proof {
                assert forall|q: int, r: int|
                    0 <= q < ready@.len() && p + 1 <= r < len implies #[trigger] ready@[q] < #[trigger] dls[r] by {
                    if c == 0 && q == ready@.len() - 1 {
                        lemma_dependents_sorted(g, t as int, n as int, p as int, r);
                        lemma_no_later_occurrence(dls, p as int, r, i as int);
                    }
                }
                assert forall|q: int|
                    0 <= q < ready@.len() implies count_in(dls.take(p + 1), #[trigger] ready@[q] as int)
                    == count_in(dls, ready@[q] as int) by {
                    if !(c == 0 && q == ready@.len() - 1) {
                        assert(ready@[q] < dls[p as int]);
                        lemma_count_in_take_step(dls, p as int, ready@[q] as int);
                    }
                }
                assert forall|j: int|
                    0 <= j < n && becomes_ready(g, s0, t as int, j) && count_in(dls.take(p + 1), j)
                        == count_in(dls, j) implies exists|q: int|
                    0 <= q < ready@.len() && #[trigger] ready@[q] == j by {
                    lemma_count_in_take_step(dls, p as int, j);
                    if j != i {
                        let q = choose|q: int| 0 <= q < old_ready.len() && #[trigger] old_ready[q] == j;
                        assert(ready@[q] == j);
                    } else {
                        lemma_pending_zero(g[j], s1);
                        lemma_dependents_count(g, t as int, n as int, j);
                        assert(pending_deps(g[j], s1) == 0);
                        assert(c == 0);
                        assert(ready@[ready@.len() - 1] == j);
                    }
                }
                assert forall|j: int| 0 <= j < n implies #[trigger] self.in_degree@[j] == in0[j] - count_in(
                    dls.take(p + 1),
                    j,
                ) by {
                    lemma_count_in_take_step(dls, p as int, j);
                }
                assert forall|j: int|
                    0 <= j < n implies #[trigger] self.states@[j] == if count_in(dls, j) > 0 && count_in(
                        dls.take(p + 1),
                        j,
                    ) == count_in(dls, j) && pending_deps(g[j], s1) == 0 {
                        TaskState::Running
                    } else {
                        s1[j]
                    } by {
                    lemma_count_in_take_step(dls, p as int, j);
                    lemma_count_in_take_le(dls, p as int, j);
                }
            }
            p = p + 1;
        }
        proof {
            assert(dls.take(len as int) =~= dls);
            let s2 = self.states@;
            // the tasks that became ready were pending
            assert forall|i: int| 0 <= i < n && becomes_ready(g, s0, t as int, i) implies #[trigger] s0[i]
                == TaskState::Pending by {
                lemma_no_self_edge(g, t as int);
                lemma_count_in_pos(g[i], t as int);
                lemma_pending_ge_count(g[i], s0, t as int);
                lemma_pending_zero(g[i], s0);
                lemma_pending_zero(g[i], s1);
                if s0[i] == TaskState::Failed {
                    if !deps_completed(g, s0, i) {
                        let k = choose|k: int| 0 <= k < g[i].len() && s0[#[trigger] g[i][k] as int]
                            == TaskState::Failed;
                        assert(s1[g[i][k] as int] == TaskState::Failed);
                    }
                }
            }
            assert forall|i: int| 0 <= i < n implies (becomes_ready(g, s0, t as int, i) <==> count_in(dls, i) > 0
                && pending_deps(g[i], s1) == 0) by {
                lemma_dependents_count(g, t as int, n as int, i);
                lemma_count_in_pos(g[i], t as int);
                lemma_pending_zero(g[i], s1);
            }
            assert(s2 =~= after_completion(g, s0, t as int)) by {
                lemma_no_self_edge(g, t as int);
                assert forall|i: int| 0 <= i < n implies s2[i] == after_completion(g, s0, t as int)[i] by {
                    if i == t {
                        lemma_dependents_count(g, t as int, n as int, i);
                        lemma_count_in_pos(g[i], t as int);
                    }
                }
            }
            // pending counts only look at completion
            assert forall|i: int| 0 <= i < n implies #[trigger] self.in_degree@[i] == pending_deps(g[i], s2) by {
                lemma_dependents_count(g, t as int, n as int, i);
                assert forall|k: int| 0 <= k < g[i].len() implies (s1[#[trigger] g[i][k] as int]
                    == TaskState::Completed <==> s2[g[i][k] as int] == TaskState::Completed) by {
                    assert(g[i][k] < n);
                }
                lemma_pending_same(g[i], s1, s2);
            }
            assert forall|i: int|
                0 <= i < n && (#[trigger] s2[i] == TaskState::Running || s2[i] == TaskState::Completed)
                implies deps_completed(g, s2, i) by {
                if i == t {
                    assert(deps_completed(g, s0, i));
                } else if becomes_ready(g, s0, t as int, i) {
                } else {
                    assert(deps_completed(g, s0, i));
                }
                assert forall|k: int| 0 <= k < g[i].len() implies s2[#[trigger] g[i][k] as int]
                    == TaskState::Completed by {
                    let x = g[i][k] as int;
                    assert(x < n);
                    if x != t {
                        assert(s1[x] == TaskState::Completed);
                    }
                }
            }
            assert forall|i: int| 0 <= i < n && #[trigger] s2[i] == TaskState::Failed implies deps_completed(
                g,
                s2,
                i,
            ) || some_dep_failed(g, s2, i) by {
                assert(s0[i] == TaskState::Failed);
                if deps_completed(g, s0, i) {
                    assert forall|k: int| 0 <= k < g[i].len() implies s2[#[trigger] g[i][k] as int]
                        == TaskState::Completed by {
                        assert(g[i][k] < n);
                    }
                } else {
                    let k = choose|k: int| 0 <= k < g[i].len() && s0[#[trigger] g[i][k] as int]
                        == TaskState::Failed;
                    assert(g[i][k] < n);
                    assert(s2[g[i][k] as int] == TaskState::Failed);
                }
            }
            assert forall|i: int| 0 <= i < n && #[trigger] s2[i] == TaskState::Pending implies self.in_degree@[i]
                > 0 by {
                lemma_dependents_count(g, t as int, n as int, i);
                assert(s0[i] == TaskState::Pending);
            }
            assert(self.started);
            assert(started_after_deps(g, s2));
            assert(failed_for_cause(g, s2));
            assert(forall|j: int| 0 <= j < n ==> #[trigger] self.dependents@[j]@ == dependents_of(g, j));
        }
        ready
    }

    /// Appends the cascade of `f` to `out`: each task depending on `f`, in the
    /// order of `f`'s dependents list, followed by its own cascade.
    fn collect_cascade(&self, f: usize, out: &mut Vec<usize>)
        requires
            self.wf(),
            f < self.graph().len(),
        ensures
            final(out)@ == old(out)@ + cascade(self.graph(), f as int),
        decreases ancestors(self.graph(), f as int).len(), 1int, 0int,
    {
        let ghost g = self.graph();
        let ghost n = g.len();
        let dl = &self.dependents[f];
        let len = dl.len();
        proof {
            assert(dl@ == dependents_of(g, f as int));
            assert(cascade(g, f as int) == cascade_from(g, f as int, 0));
        }
        let mut k: usize = 0;
        while k < len
            invariant
                self.wf(),
                g == self.graph(),
                n == g.len(),
                f < n,
                dl@ == dependents_of(g, f as int),
                len == dl@.len(),
                k <= len,
                out@ + cascade_from(g, f as int, k as int) == old(out)@ + cascade(g, f as int),
            decreases len - k,
        {
            let d = dl[k];
            proof {
                lemma_dependents_edge(g, f as int, n as int, k as int);
                lemma_ancestors_shrink(g, f as int, d as int);
            }
            let ghost before = out@;
            out.push(d);
            self.collect_cascade(d, out);
            proof {
                let cd = cascade(g, d as int);
                let rest = cascade_from(g, f as int, k + 1);
                assert(cascade_from(g, f as int, k as int) == seq![d] + cd + rest);
                assert(out@ + rest =~= before + cascade_from(g, f as int, k as int));
            }
            k = k + 1;
        }
        proof {
            assert(cascade_from(g, f as int, len as int) =~= Seq::<usize>::empty());
            assert(out@ =~= out@ + cascade_from(g, f as int, len as int));
        }
    }

    /// Task `t` failed: it and every task downstream of it are failed. Returns
    /// the tasks marked failed because of `t`, in cascade order, with repeats.
    fn fail_task(&mut self, t: usize) -> (marked: Vec<usize>)
        requires
            old(self).wf(),
            t < old(self).graph().len(),
            old(self).states()[t as int] == TaskState::Running,
        ensures
            final(self).wf(),
            final(self).graph() == old(self).graph(),
            final(self).is_started() == old(self).is_started(),
            final(self).completion_count() == old(self).completion_count(),
            marked@ == cascade(old(self).graph(), t as int),
            final(self).states() == after_failure(old(self).graph(), old(self).states(), t as int),
    {
        let ghost g = self.graph();
        let ghost n = g.len();
        let ghost s0 = self.states@;
        let mut marked: Vec<usize> = Vec::new();
        self.collect_cascade(t, &mut marked);
        let ghost cs = cascade(g, t as int);
        proof {
            assert(marked@ =~= cs);
            lemma_cascade_members(g, t as int);
        }
        proof {
            assert(self.started);
        }
        let ghost in0 = self.in_degree@;
        self.states.set(t, TaskState::Failed);
        let len = marked.len();
        let mut p: usize = 0;
        while p < len
            invariant
                g == self.graph(),
                n == g.len(),
                t < n,
                marked@ == cs,
                len == cs.len(),
                p <= len,
                n <= usize::MAX,
                s0.len() == n,
                self.states@.len() == n,
                self.started,
                self.in_degree@ == in0,
                self.completions == old(self).completions,
                self.dependents@ == old(self).dependents@,
                forall|q: int| 0 <= q < cs.len() ==> is_node(g, #[trigger] cs[q] as int),
                forall|i: int|
                    0 <= i < n ==> #[trigger] self.states@[i] == if i == t || cs.take(p as int).contains(
                        i as usize,
                    ) {
                        TaskState::Failed
                    } else {
                        s0[i]
                    },
            decreases len - p,
        {
            let x = marked[p];
            self.states.set(x, TaskState::Failed);
            proof {
                assert(cs.take(p + 1) =~= cs.take(p as int).push(x));
                assert forall|i: int| 0 <= i < n implies #[trigger] self.states@[i] == if i == t || cs.take(
                    p + 1,
                ).contains(i as usize) {
                    TaskState::Failed
                } else {
                    s0[i]
                } by {
                    let pre = cs.take(p as int);
                    let post = cs.take(p + 1);
                    if post.contains(i as usize) && i != x {
                        let q = choose|q: int| 0 <= q < post.len() && #[trigger] post[q] == i as usize;
                        assert(post[p as int] == x);
                        assert(q < p);
                        assert(pre[q] == i as usize);
                    }
                    if pre.contains(i as usize) {
                        let q = choose|q: int| 0 <= q < pre.len() && #[trigger] pre[q] == i as usize;
                        assert(post[q] == i as usize);
                    }
                    if i == x {
                        assert(cs.take(p + 1)[p as int] == x);
                    }
                }
            }
            p = p + 1;
        }
        proof {
            assert(cs.take(len as int) =~= cs);
            let s2 = self.states@;
            assert(s2 =~= after_failure(g, s0, t as int));
            // the tasks of the cascade had not started
            assert forall|q: int| 0 <= q < cs.len() implies #[trigger] s0[cs[q] as int] != TaskState::Running
                && s0[cs[q] as int] != TaskState::Completed by {
                assert(cascade_member_ok(g, t as int, cs, cs[q] as int));
                lemma_downstream_not_started(g, s0, cs[q] as int, t as int);
            }
            assert forall|i: int| 0 <= i < n implies (#[trigger] s0[i] == TaskState::Completed <==> s2[i]
                == TaskState::Completed) by {
                if cs.contains(i as usize) {
                    let q = choose|q: int| 0 <= q < cs.len() && cs[q] == i as usize;
                    assert(s0[cs[q] as int] != TaskState::Completed);
                }
            }
            assert forall|i: int| 0 <= i < n implies #[trigger] self.in_degree@[i] == pending_deps(g[i], s2) by {
                assert forall|k: int| 0 <= k < g[i].len() implies (s0[#[trigger] g[i][k] as int]
                    == TaskState::Completed <==> s2[g[i][k] as int] == TaskState::Completed) by {
                    assert(g[i][k] < n);
                }
                lemma_pending_same(g[i], s0, s2);
            }
            assert forall|i: int|
                0 <= i < n && (#[trigger] s2[i] == TaskState::Running || s2[i] == TaskState::Completed)
                implies deps_completed(g, s2, i) by {
                assert(s2[i] == s0[i]);
                assert forall|k: int| 0 <= k < g[i].len() implies s2[#[trigger] g[i][k] as int]
                    == TaskState::Completed by {
                    assert(g[i][k] < n);
                }
            }
            assert forall|i: int| 0 <= i < n && #[trigger] s2[i] == TaskState::Failed implies deps_completed(
                g,
                s2,
                i,
            ) || some_dep_failed(g, s2, i) by {
                if i == t {
                    assert(deps_completed(g, s0, i));
                    assert forall|k: int| 0 <= k < g[i].len() implies s2[#[trigger] g[i][k] as int]
                        == TaskState::Completed by {
                        assert(g[i][k] < n);
                    }
                } else if cs.contains(i as usize) {
                    let q = choose|q: int| 0 <= q < cs.len() && cs[q] == i as usize;
                    assert(cascade_member_ok(g, t as int, cs, cs[q] as int));
                    assert(has_dep_among(g, i, t as int, cs));
                    let k = choose|k: int| 0 <= k < g[i].len() && (#[trigger] g[i][k] == t || cs.contains(g[i][k]));
                    assert(g[i][k] < n);
                    assert(s2[g[i][k] as int] == TaskState::Failed);
                } else {
                    assert(s0[i] == TaskState::Failed);
                    if deps_completed(g, s0, i) {
                        assert forall|k: int| 0 <= k < g[i].len() implies s2[#[trigger] g[i][k] as int]
                            == TaskState::Completed by {
                            assert(g[i][k] < n);
                        }
                    } else {
                        let k = choose|k: int| 0 <= k < g[i].len() && s0[#[trigger] g[i][k] as int]
                            == TaskState::Failed;
                        assert(g[i][k] < n);
                        assert(s2[g[i][k] as int] == TaskState::Failed);
                    }
                }
            }
            assert forall|i: int| 0 <= i < n && #[trigger] s2[i] == TaskState::Pending implies self.in_degree@[i]
                > 0 by {
                assert(s0[i] == TaskState::Pending);
            }
            assert forall|f: int, x: int|
                0 <= f < n && 0 <= x < n && s2[f] == TaskState::Failed && #[trigger] depends_transitively(g, x, f)
                implies s2[x] == TaskState::Failed by {
                if f == t {
                    lemma_cascade_complete(g, t as int, x);
                } else if cs.contains(f as usize) {
                    let q = choose|q: int| 0 <= q < cs.len() && cs[q] == f as usize;
                    assert(cascade_member_ok(g, t as int, cs, cs[q] as int));
                    lemma_depends_trans(g, x, f, t as int);
                    lemma_cascade_complete(g, t as int, x);
                } else {
                    assert(s0[f] == TaskState::Failed);
                }
            }
            assert(self.started);
        }
        marked
    }
}

/// What the caller does after a task has finished.
pub struct DependentActions {
    /// Tasks to start now, in task order.
    pub ready: Vec<usize>,
    /// Tasks to record as failed (and to count as finished), in cascade order.
    pub failed: Vec<usize>,
}

impl ExecutionState {
    /// Task `task` finished, successfully or not. On success its dependents
    /// that have no other dependency left to wait for become ready; on failure
    /// every task downstream of it is marked failed.
    pub fn process_dependent_tasks(&mut self, task: usize, success: bool) -> (actions: DependentActions)
        requires
            old(self).wf(),
            task < old(self).graph().len(),
            old(self).states()[task as int] == TaskState::Running,
        ensures
            final(self).wf(),
            final(self).graph() == old(self).graph(),
            final(self).is_started() == old(self).is_started(),
            final(self).completion_count() == old(self).completion_count(),
            success ==> {
                &&& final(self).states() == after_completion(
                    old(self).graph(),
                    old(self).states(),
                    task as int,
                )
                &&& actions.failed@.len() == 0
                &&& strictly_increasing(actions.ready@)
                &&& forall|q: int|
                    0 <= q < actions.ready@.len() ==> becomes_ready(
                        old(self).graph(),
                        old(self).states(),
                        task as int,
                        #[trigger] actions.ready@[q] as int,
                    ) && old(self).states()[actions.ready@[q] as int] == TaskState::Pending
                &&& forall|i: int|
                    becomes_ready(old(self).graph(), old(self).states(), task as int, i) ==> exists|q: int|
                        0 <= q < actions.ready@.len() && #[trigger] actions.ready@[q] == i
            },
            !success ==> {
                &&& final(self).states() == after_failure(
                    old(self).graph(),
                    old(self).states(),
                    task as int,
                )
                &&& actions.ready@.len() == 0
                &&& actions.failed@ == cascade(old(self).graph(), task as int)
            },
    {
        if success {
            let ready = self.complete_task(task);
            DependentActions { ready, failed: Vec::new() }
        } else {
            let failed = self.fail_task(task);
            DependentActions { ready: Vec::new(), failed }
        }
    }

    /// Whether the run is over: it has started and every task has completed
    /// or failed. A run without tasks is over as soon as it starts.
    pub fn is_finished(&self) -> (b: bool)
        requires
            self.wf(),
        ensures
            b == (self.is_started() && all_settled(self.states())),
    {
        if !self.started {
            return false;
        }
        let n = self.states.len();
        let mut i: usize = 0;
        while i < n
            invariant
                n == self.states@.len(),
                i <= n,
                forall|j: int| 0 <= j < i ==> #[trigger] settled(self.states@[j]),
            decreases n - i,
        {
            if !(self.states[i] == TaskState::Completed || self.states[i] == TaskState::Failed) {
                proof {
                    assert(!settled(self.states@[i as int]));
                }
                return false;
            }
            i = i + 1;
        }
        true
    }

    /// The tasks that are marked failed if the running task `task` fails, in
    /// cascade order, with repeats; nothing changes.
    pub fn downstream_of(&self, task: usize) -> (res: Vec<usize>)
        requires
            self.wf(),
            task < self.graph().len(),
        ensures
            res@ == cascade(self.graph(), task as int),
    {
        let mut res: Vec<usize> = Vec::new();
        self.collect_cascade(task, &mut res);
        proof {
            assert(res@ =~= cascade(self.graph(), task as int));
        }
        res
    }

    /// A started run is over exactly when no task is running.
    pub proof fn lemma_finished_when_idle(&self)
        requires
            self.wf(),
            self.is_started(),
        ensures
            all_settled(self.states()) <==> forall|i: int|
                0 <= i < self.graph().len() ==> #[trigger] self.states()[i] != TaskState::Running,
    {
        if forall|i: int| 0 <= i < self.graph().len() ==> #[trigger] self.states()[i] != TaskState::Running {
            self.lemma_no_stall();
            assert forall|i: int| 0 <= i < self.states().len() implies #[trigger] settled(self.states()[i]) by {}
        }
        if all_settled(self.states()) {
            assert forall|i: int| 0 <= i < self.graph().len() implies #[trigger] self.states()[i]
                != TaskState::Running by {
                assert(settled(self.states()[i]));
            }
        }
    }

    /// Counts one completion signal. Returns whether as many signals as there
    /// are tasks have now been counted.
    pub fn record_completion(&mut self) -> (done: bool)
        requires
            old(self).wf(),
            old(self).completion_count() < usize::MAX,
        ensures
            final(self).wf(),
            final(self).graph() == old(self).graph(),
            final(self).states() == old(self).states(),
            final(self).is_started() == old(self).is_started(),
            final(self).completion_count() == old(self).completion_count() + 1,
            done == (final(self).completion_count() == old(self).graph().len()),
    {
        self.completions = self.completions + 1;
        self.completions == self.graph.len()
    }

    /// Number of completion signals counted so far.
    pub fn completions(&self) -> (c: usize)
        requires
            self.wf(),
        ensures
            c == self.completion_count(),
    {
        self.completions
    }

    /// A task runs, or has completed, only once all of its dependencies have
    /// completed.
    pub proof fn lemma_started_after_dependencies(&self)
        requires
            self.wf(),
        ensures
            started_after_deps(self.graph(), self.states()),
    {
    }

    /// A failed task either ran, after all its dependencies completed, or was
    /// marked failed because one of its dependencies failed.
    pub proof fn lemma_failed_for_cause(&self)
        requires
            self.wf(),
        ensures
            failed_for_cause(self.graph(), self.states()),
    {
    }

    /// Completed and failed tasks keep their state whatever is reported next,
    /// and only pending tasks start running: no task runs twice, and no task
    /// marked failed ever runs.
    pub proof fn lemma_final_states(&self, t: int)
        requires
            self.wf(),
            0 <= t < self.graph().len(),
            self.states()[t] == TaskState::Running,
        ensures
            forall|i: int|
                0 <= i < self.graph().len() && i != t && (#[trigger] self.states()[i] == TaskState::Completed
                    || self.states()[i] == TaskState::Failed) ==> after_completion(self.graph(), self.states(), t)[i]
                    == self.states()[i] && after_failure(self.graph(), self.states(), t)[i] == self.states()[i],
            forall|i: int|
                0 <= i < self.graph().len() && i != t && #[trigger] after_completion(self.graph(), self.states(), t)[i]
                    == TaskState::Running ==> self.states()[i] == TaskState::Pending
                    || self.states()[i] == TaskState::Running,
    {
        let g = self.graph();
        let s = self.states();
        assert forall|i: int|
            0 <= i < g.len() && i != t && (#[trigger] s[i] == TaskState::Completed || s[i] == TaskState::Failed)
            implies after_completion(g, s, t)[i] == s[i] && after_failure(g, s, t)[i] == s[i] by {
            if becomes_ready(g, s, t, i) {
                lemma_ready_was_pending(g, s, t, i);
            }
            if s[i] == TaskState::Completed && cascade(g, t).contains(i as usize) {
                lemma_cascade_members(g, t);
                let q = choose|q: int| 0 <= q < cascade(g, t).len() && cascade(g, t)[q] == i as usize;
                assert(cascade_member_ok(g, t, cascade(g, t), cascade(g, t)[q] as int));
                lemma_downstream_not_started(g, s, i, t);
            }
        }
        assert forall|i: int|
            0 <= i < g.len() && i != t && #[trigger] after_completion(g, s, t)[i] == TaskState::Running
            implies s[i] == TaskState::Pending || s[i] == TaskState::Running by {
            if becomes_ready(g, s, t, i) {
                lemma_ready_was_pending(g, s, t, i);
            }
        }
    }

    /// Every task downstream of a failed task has failed too.
    pub proof fn lemma_failure_spread(&self)
        requires
            self.wf(),
        ensures
            failure_spread(self.graph(), self.states()),
    {
    }

    /// A started run in which no task is running has nothing left to do:
    /// every task has completed or failed.
    pub proof fn lemma_no_stall(&self)
        requires
            self.wf(),
            self.is_started(),
            forall|i: int| 0 <= i < self.graph().len() ==> #[trigger] self.states()[i] != TaskState::Running,
        ensures
            forall|i: int|
                0 <= i < self.graph().len() ==> #[trigger] self.states()[i] == TaskState::Completed
                    || self.states()[i] == TaskState::Failed,
    {
        assert forall|i: int| 0 <= i < self.graph().len() implies #[trigger] self.states()[i] == TaskState::Completed
            || self.states()[i] == TaskState::Failed by {
            self.lemma_not_pending(i);
        }
    }

    proof fn lemma_not_pending(&self, x: int)
        requires
            self.wf(),
            self.is_started(),
            forall|i: int| 0 <= i < self.graph().len() ==> #[trigger] self.states()[i] != TaskState::Running,
            0 <= x < self.graph().len(),
        ensures
            self.states()[x] != TaskState::Pending,
        decreases descendants(self.graph(), x).len(),
    {
        let g = self.graph();
        let s = self.states();
        if s[x] == TaskState::Pending {
            lemma_pending_zero(g[x], s);
            let k = choose|k: int| 0 <= k < g[x].len() && s[#[trigger] g[x][k] as int] != TaskState::Completed;
            let d = g[x][k] as int;
            assert(d < g.len());
            assert(edge(g, x, d));
            if s[d] == TaskState::Failed {
                crate::graph::lemma_single_path(g, d);
                assert(depends_transitively(g, x, d));
            } else {
                lemma_descendants_shrink(g, x, d);
                self.lemma_not_pending(d);
            }
        }
    }

    /// Once the run has started, a task still pending has a dependency that has
    /// not completed: no task is left waiting for nothing.
    pub proof fn lemma_pending_waits(&self)
        requires
            self.wf(),
            self.is_started(),
        ensures
            forall|i: int|
                0 <= i < self.graph().len() && #[trigger] self.states()[i] == TaskState::Pending
                    ==> !deps_completed(self.graph(), self.states(), i),
    {
        assert forall|i: int|
            0 <= i < self.graph().len() && #[trigger] self.states()[i] == TaskState::Pending implies !deps_completed(
            self.graph(),
            self.states(),
            i,
        ) by {
            lemma_pending_zero(self.graph()[i], self.states());
        }
    }
}

/// Task `i` depends on `t` and, once `t` has completed, has every dependency completed.
pub open spec fn becomes_ready(g: Seq<Seq<usize>>, states: Seq<TaskState>, t: int, i: int) -> bool {
    &&& 0 <= i < g.len()
    &&& edge(g, i, t)
    &&& deps_completed(g, states.update(t, TaskState::Completed), i)
}

/// The task states after `t` completes: `t` is completed, and the tasks that
/// become ready are running.
pub open spec fn after_completion(g: Seq<Seq<usize>>, states: Seq<TaskState>, t: int) -> Seq<
    TaskState,
> {
    Seq::new(
        states.len(),
        |i: int|
            if i == t {
                TaskState::Completed
            } else if becomes_ready(g, states, t, i) {
                TaskState::Running
            } else {
                states[i]
            },
    )
}

/// Each entry is smaller than the next.
pub open spec fn strictly_increasing(s: Seq<usize>) -> bool {
    forall|p: int, q: int| 0 <= p < q < s.len() ==> s[p] < s[q]
}

/// A task counted in `s` only before position `p + 1` does not occur after it.
proof fn lemma_no_later_occurrence(s: Seq<usize>, p: int, r: int, x: int)
    requires
        0 <= p < r < s.len(),
        count_in(s.take(p + 1), x) == count_in(s, x),
    ensures
        s[r] != x,
{
    let b = s.take(r + 1);
    lemma_count_in_take_le(b, p + 1, x);
    assert(b.take(p + 1) =~= s.take(p + 1));
    lemma_count_in_take_le(s, r + 1, x);
    lemma_count_in_take_step(s, r, x);
    lemma_count_in_take_le(s.take(r), p + 1, x);
    assert(s.take(r).take(p + 1) =~= s.take(p + 1));
}

/// The task states after `t` fails: `t` and every task of its cascade are failed.
pub open spec fn after_failure(g: Seq<Seq<usize>>, states: Seq<TaskState>, t: int) -> Seq<TaskState> {
    Seq::new(
        states.len(),
        |i: int|
            if i == t || cascade(g, t).contains(i as usize) {
                TaskState::Failed
            } else {
                states[i]
            },
    )
}

/// Along a walk that starts at a completed task, every task has completed.
proof fn lemma_completed_along(g: Seq<Seq<usize>>, s: Seq<TaskState>, p: Seq<int>, m: int)
    requires
        s.len() == g.len(),
        started_after_deps(g, s),
        is_path(g, p),
        s[p[0]] == TaskState::Completed,
        0 <= m < p.len(),
    ensures
        s[p[m]] == TaskState::Completed,
    decreases m,
{
    if m > 0 {
        lemma_completed_along(g, s, p, m - 1);
        assert(step_ok(g, p, m - 1));
        assert(is_node(g, p[m - 1]));
        assert(deps_completed(g, s, p[m - 1]));
        let k = choose|k: int| 0 <= k < g[p[m - 1]].len() && #[trigger] g[p[m - 1]][k] == p[m];
    }
}

/// A task that depends, directly or not, on a task that has not completed has
/// not started.
proof fn lemma_downstream_not_started(g: Seq<Seq<usize>>, s: Seq<TaskState>, x: int, f: int)
    requires
        s.len() == g.len(),
        started_after_deps(g, s),
        is_node(g, x),
        depends_transitively(g, x, f),
        s[f] != TaskState::Completed,
    ensures
        s[x] != TaskState::Running,
        s[x] != TaskState::Completed,
{
    let d = choose|d: int| #[trigger] edge(g, x, d) && reaches(g, d, f);
    let p = choose|p: Seq<int>| #[trigger] is_path(g, p) && p[0] == d && p.last() == f;
    if s[x] == TaskState::Running || s[x] == TaskState::Completed {
        assert(deps_completed(g, s, x));
        let k = choose|k: int| 0 <= k < g[x].len() && #[trigger] g[x][k] == d;
        assert(s[d] == TaskState::Completed);
        lemma_completed_along(g, s, p, p.len() - 1);
    }
}

/// A task that becomes ready when the running task `t` completes was pending.
proof fn lemma_ready_was_pending(g: Seq<Seq<usize>>, s0: Seq<TaskState>, t: int, i: int)
    requires
        cascade_ok(g),
        s0.len() == g.len(),
        0 <= t < g.len(),
        s0[t] == TaskState::Running,
        started_after_deps(g, s0),
        failed_for_cause(g, s0),
        becomes_ready(g, s0, t, i),
    ensures
        s0[i] == TaskState::Pending,
{
    let s1 = s0.update(t, TaskState::Completed);
    lemma_no_self_edge(g, t);
    lemma_count_in_pos(g[i], t);
    lemma_pending_ge_count(g[i], s0, t);
    lemma_pending_zero(g[i], s0);
    if s0[i] == TaskState::Failed {
        if !deps_completed(g, s0, i) {
            let k = choose|k: int| 0 <= k < g[i].len() && s0[#[trigger] g[i][k] as int] == TaskState::Failed;
            assert(s1[g[i][k] as int] == TaskState::Failed);
        }
    }
}

/// The tasks among `0..m` without dependencies, in order.
pub open spec fn initial_tasks_upto(g: Seq<Seq<usize>>, m: int) -> Seq<usize>
    decreases m,
{
    if m <= 0 {
        Seq::empty()
    } else if g[m - 1].len() == 0 {
        initial_tasks_upto(g, m - 1).push((m - 1) as usize)
    } else {
        initial_tasks_upto(g, m - 1)
    }
}

/// The tasks without dependencies, in order: those a run starts with.
pub open spec fn initial_tasks(g: Seq<Seq<usize>>) -> Seq<usize> {
    initial_tasks_upto(g, g.len() as int)
}

/// What a run starts with, stated directly: a list without repeats, in
/// increasing order, holding a task exactly when it has no dependencies.
pub open spec fn lists_exactly_the_roots(g: Seq<Seq<usize>>, ready: Seq<usize>) -> bool {
    &&& strictly_increasing(ready)
    &&& forall|p: int| 0 <= p < ready.len() ==> #[trigger] ready[p] < g.len() && g[ready[p] as int].len() == 0
    &&& forall|i: int| 0 <= i < g.len() && g[i].len() == 0 ==> exists|p: int| 0 <= p < ready.len() && #[trigger] ready[p] == i
}

proof fn lemma_initial_tasks_upto(g: Seq<Seq<usize>>, m: int)
    requires
        0 <= m <= g.len(),
        g.len() <= usize::MAX,
    ensures
        strictly_increasing(initial_tasks_upto(g, m)),
        forall|p: int|
            0 <= p < initial_tasks_upto(g, m).len() ==> #[trigger] initial_tasks_upto(g, m)[p] < m
                && g[initial_tasks_upto(g, m)[p] as int].len() == 0,
        forall|i: int|
            0 <= i < m && g[i].len() == 0 ==> exists|p: int|
                0 <= p < initial_tasks_upto(g, m).len() && #[trigger] initial_tasks_upto(g, m)[p] == i,
    decreases m,
{
    if m > 0 {
        lemma_initial_tasks_upto(g, m - 1);
        let prev = initial_tasks_upto(g, m - 1);
        let cur = initial_tasks_upto(g, m);
        if g[m - 1].len() == 0 {
            assert(cur == prev.push((m - 1) as usize));
            assert forall|i: int| 0 <= i < m && g[i].len() == 0 implies exists|p: int|
                0 <= p < cur.len() && #[trigger] cur[p] == i by {
                if i == m - 1 {
                    assert(cur[prev.len() as int] == i);
                } else {
                    let p = choose|p: int| 0 <= p < prev.len() && #[trigger] prev[p] == i;
                    assert(cur[p] == i);
                }
            }
            assert forall|p: int| 0 <= p < cur.len() implies #[trigger] cur[p] < m && g[cur[p] as int].len() == 0 by {
                if p < prev.len() {
                    assert(cur[p] == prev[p]);
                }
            }
            assert forall|p: int, q: int| 0 <= p < q < cur.len() implies cur[p] < cur[q] by {
                assert(prev[p] < m - 1);
                if q < prev.len() {
                    assert(prev[p] < prev[q]);
                }
            }
        } else {
            assert(cur == prev);
        }
    }
}

/// The run starts with exactly the tasks without dependencies, each once, in
/// increasing order.
pub proof fn lemma_initial_tasks(g: Seq<Seq<usize>>)
    requires
        g.len() <= usize::MAX,
    ensures
        lists_exactly_the_roots(g, initial_tasks(g)),
{
    lemma_initial_tasks_upto(g, g.len() as int);
}

} // verus!
