//! Directed graphs over task indices: paths, reachability, cycles, and the
//! depth-first search that detects a cycle.
//!
//! A graph is a sequence of adjacency lists: `g[i]` lists the nodes that node
//! `i` points to (for the dependency graph: the tasks that task `i` depends on).
use vstd::prelude::*;

verus! {

/// `i` is a node of `g`.
pub open spec fn is_node(g: Seq<Seq<usize>>, i: int) -> bool {
    0 <= i < g.len()
}

/// Every adjacency entry names a node of the graph.
pub open spec fn well_formed(g: Seq<Seq<usize>>) -> bool {
    forall|i: int, k: int| 0 <= i < g.len() && 0 <= k < g[i].len() ==> #[trigger] g[i][k] < g.len()
}

/// There is an edge from `i` to `j`.
pub open spec fn edge(g: Seq<Seq<usize>>, i: int, j: int) -> bool {
    &&& is_node(g, i)
    &&& exists|k: int| 0 <= k < g[i].len() && #[trigger] g[i][k] == j
}

/// The step from `p[m]` to `p[m + 1]` follows an edge.
pub open spec fn step_ok(g: Seq<Seq<usize>>, p: Seq<int>, m: int) -> bool {
    edge(g, p[m], p[m + 1])
}

/// `p` is a non-empty walk through `g` (nodes may repeat).
pub open spec fn is_path(g: Seq<Seq<usize>>, p: Seq<int>) -> bool {
    &&& p.len() >= 1
    &&& forall|m: int| 0 <= m < p.len() ==> is_node(g, #[trigger] p[m])
    &&& forall|m: int| 0 <= m < p.len() - 1 ==> #[trigger] step_ok(g, p, m)
}

/// `b` can be reached from `a` by following zero or more edges.
pub open spec fn reaches(g: Seq<Seq<usize>>, a: int, b: int) -> bool {
    exists|p: Seq<int>| #[trigger] is_path(g, p) && p[0] == a && p.last() == b
}

/// `v` lies on a cycle: a walk of at least one edge leads from `v` back to `v`.
pub open spec fn on_cycle(g: Seq<Seq<usize>>, v: int) -> bool {
    exists|p: Seq<int>| #[trigger] is_path(g, p) && p.len() >= 2 && p[0] == v && p.last() == v
}

/// Some node on a cycle can be reached from `s`.
pub open spec fn cycle_reachable(g: Seq<Seq<usize>>, s: int) -> bool {
    exists|v: int| #[trigger] reaches(g, s, v) && on_cycle(g, v)
}

/// No node of `g` lies on a cycle.
pub open spec fn is_acyclic(g: Seq<Seq<usize>>) -> bool {
    forall|v: int| is_node(g, v) ==> !#[trigger] on_cycle(g, v)
}

// ---------------------------------------------------------------------------
// Lemmas about paths
// ---------------------------------------------------------------------------

pub proof fn lemma_single_path(g: Seq<Seq<usize>>, a: int)
    requires
        is_node(g, a),
    ensures
        is_path(g, seq![a]),
        reaches(g, a, a),
{
    let p = seq![a];
    assert(is_path(g, p));
}

pub proof fn lemma_path_push(g: Seq<Seq<usize>>, p: Seq<int>, x: int)
    requires
        is_path(g, p),
        edge(g, p.last(), x),
        well_formed(g),
    ensures
        is_path(g, p.push(x)),
        p.push(x)[0] == p[0],
        p.push(x).last() == x,
{
    let q = p.push(x);
    let k = choose|k: int| 0 <= k < g[p.last()].len() && #[trigger] g[p.last()][k] == x;
    assert(g[p.last()][k] < g.len());
    assert forall|m: int| 0 <= m < q.len() implies is_node(g, #[trigger] q[m]) by {
        if m < p.len() {
            assert(q[m] == p[m]);
        }
    }
    assert forall|m: int| 0 <= m < q.len() - 1 implies #[trigger] step_ok(g, q, m) by {
        if m < p.len() - 1 {
            assert(step_ok(g, p, m));
            assert(q[m] == p[m] && q[m + 1] == p[m + 1]);
        } else {
            assert(q[m] == p.last());
            assert(q[m + 1] == x);
        }
    }
}

pub proof fn lemma_path_suffix(g: Seq<Seq<usize>>, p: Seq<int>, start: int)
    requires
        is_path(g, p),
        0 <= start < p.len(),
    ensures
        is_path(g, p.subrange(start, p.len() as int)),
        p.subrange(start, p.len() as int)[0] == p[start],
        p.subrange(start, p.len() as int).last() == p.last(),
{
    let q = p.subrange(start, p.len() as int);
    assert forall|m: int| 0 <= m < q.len() implies is_node(g, #[trigger] q[m]) by {
        assert(q[m] == p[start + m]);
    }
    assert forall|m: int| 0 <= m < q.len() - 1 implies #[trigger] step_ok(g, q, m) by {
        assert(step_ok(g, p, start + m));
        assert(q[m] == p[start + m] && q[m + 1] == p[start + m + 1]);
    }
}

pub proof fn lemma_path_concat(g: Seq<Seq<usize>>, p: Seq<int>, q: Seq<int>)
    requires
        is_path(g, p),
        is_path(g, q),
        p.last() == q[0],
    ensures
        is_path(g, p + q.subrange(1, q.len() as int)),
        (p + q.subrange(1, q.len() as int))[0] == p[0],
        (p + q.subrange(1, q.len() as int)).last() == q.last(),
        (p + q.subrange(1, q.len() as int)).len() == p.len() + q.len() - 1,
{
    let t = q.subrange(1, q.len() as int);
    let r = p + t;
    assert forall|m: int| 0 <= m < r.len() implies is_node(g, #[trigger] r[m]) by {
        if m < p.len() {
            assert(r[m] == p[m]);
        } else {
            assert(r[m] == q[m - p.len() + 1]);
        }
    }
    assert forall|m: int| 0 <= m < r.len() - 1 implies #[trigger] step_ok(g, r, m) by {
        if m < p.len() - 1 {
            assert(step_ok(g, p, m));
            assert(r[m] == p[m] && r[m + 1] == p[m + 1]);
        } else {
            let j = m - p.len() + 1;
            assert(step_ok(g, q, j));
            if m == p.len() - 1 {
                assert(r[m] == p.last());
                assert(r[m] == q[0]);
            } else {
                assert(r[m] == q[j]);
            }
            assert(r[m + 1] == q[j + 1]);
        }
    }
    if q.len() > 1 {
        assert(r.last() == q.last());
    }
}

pub proof fn lemma_reaches_trans(g: Seq<Seq<usize>>, a: int, b: int, c: int)
    requires
        reaches(g, a, b),
        reaches(g, b, c),
    ensures
        reaches(g, a, c),
{
    let p = choose|p: Seq<int>| #[trigger] is_path(g, p) && p[0] == a && p.last() == b;
    let q = choose|q: Seq<int>| #[trigger] is_path(g, q) && q[0] == b && q.last() == c;
    lemma_path_concat(g, p, q);
    let r = p + q.subrange(1, q.len() as int);
    assert(is_path(g, r) && r[0] == a && r.last() == c);
}

/// One edge followed by a walk.
pub proof fn lemma_edge_then_reaches(g: Seq<Seq<usize>>, a: int, b: int, c: int)
    requires
        well_formed(g),
        edge(g, a, b),
        reaches(g, b, c),
    ensures
        reaches(g, a, c),
{
    lemma_single_path(g, a);
    lemma_path_push(g, seq![a], b);
    assert(seq![a].push(b)[0] == a);
    lemma_reaches_trans(g, a, b, c);
}

/// A node on a cycle is a cycle reachable from that node.
pub proof fn lemma_on_cycle_reachable(g: Seq<Seq<usize>>, v: int)
    requires
        on_cycle(g, v),
    ensures
        cycle_reachable(g, v),
{
    let p = choose|p: Seq<int>| #[trigger] is_path(g, p) && p.len() >= 2 && p[0] == v && p.last() == v;
    assert(is_node(g, p[0]));
    lemma_single_path(g, v);
}

/// A cycle reachable from a successor of `a` is reachable from `a`.
pub proof fn lemma_cycle_reachable_back(g: Seq<Seq<usize>>, a: int, b: int)
    requires
        well_formed(g),
        edge(g, a, b),
        cycle_reachable(g, b),
    ensures
        cycle_reachable(g, a),
{
    let v = choose|v: int| #[trigger] reaches(g, b, v) && on_cycle(g, v);
    lemma_edge_then_reaches(g, a, b, v);
}

/// An acyclic graph has no edge from a node to itself.
pub proof fn lemma_no_self_edge(g: Seq<Seq<usize>>, i: int)
    requires
        well_formed(g),
        is_acyclic(g),
        is_node(g, i),
    ensures
        !edge(g, i, i),
{
    if edge(g, i, i) {
        lemma_single_path(g, i);
        lemma_path_push(g, seq![i], i);
        let p = seq![i].push(i);
        assert(is_path(g, p) && p.len() >= 2 && p[0] == i && p.last() == i);
        assert(on_cycle(g, i));
    }
}

// ---------------------------------------------------------------------------
// Depth-first search state
// ---------------------------------------------------------------------------

/// A node is finished: visited and no longer on the search stack.
pub open spec fn finished(visited: Seq<bool>, on_stack: Seq<bool>, i: int) -> bool {
    visited[i] && !on_stack[i]
}

/// The invariant of the depth-first search, given the stack of nodes being
/// explored (from the search root to the most recent node).
pub open spec fn dfs_inv(
    g: Seq<Seq<usize>>,
    visited: Seq<bool>,
    on_stack: Seq<bool>,
    stack: Seq<int>,
) -> bool {
    &&& visited.len() == g.len()
    &&& on_stack.len() == g.len()
    &&& forall|i: int| 0 <= i < g.len() && #[trigger] on_stack[i] ==> visited[i]
    &&& forall|i: int| 0 <= i < g.len() ==> (#[trigger] on_stack[i] <==> stack.contains(i))
    &&& stack.len() > 0 ==> is_path(g, stack)
    // finished nodes only point to finished nodes
    &&& forall|i: int, j: int|
        #![trigger finished(visited, on_stack, i), edge(g, i, j)]
        0 <= i < g.len() && finished(visited, on_stack, i) && edge(g, i, j) ==> finished(
            visited,
            on_stack,
            j,
        )
    // no finished node lies on a cycle
    &&& forall|i: int|
        0 <= i < g.len() && #[trigger] finished(visited, on_stack, i) ==> !on_cycle(g, i)
}

/// Everything reachable from a finished node is finished.
pub proof fn lemma_finished_closed(
    g: Seq<Seq<usize>>,
    visited: Seq<bool>,
    on_stack: Seq<bool>,
    stack: Seq<int>,
    p: Seq<int>,
)
    requires
        dfs_inv(g, visited, on_stack, stack),
        is_path(g, p),
        finished(visited, on_stack, p[0]),
    ensures
        forall|m: int| 0 <= m < p.len() ==> #[trigger] finished(visited, on_stack, p[m]),
{
    assert forall|m: int| 0 <= m < p.len() implies #[trigger] finished(visited, on_stack, p[m]) by {
        lemma_finished_prefix(g, visited, on_stack, stack, p, m);
    }
}

proof fn lemma_finished_prefix(
    g: Seq<Seq<usize>>,
    visited: Seq<bool>,
    on_stack: Seq<bool>,
    stack: Seq<int>,
    p: Seq<int>,
    m: int,
)
    requires
        dfs_inv(g, visited, on_stack, stack),
        is_path(g, p),
        finished(visited, on_stack, p[0]),
        0 <= m < p.len(),
    ensures
        finished(visited, on_stack, p[m]),
    decreases m,
{
    if m > 0 {
        lemma_finished_prefix(g, visited, on_stack, stack, p, m - 1);
        assert(step_ok(g, p, m - 1));
        assert(is_node(g, p[m - 1]));
    }
}

/// No cycle is reachable from a finished node.
pub proof fn lemma_finished_no_cycle(
    g: Seq<Seq<usize>>,
    visited: Seq<bool>,
    on_stack: Seq<bool>,
    stack: Seq<int>,
    s: int,
)
    requires
        dfs_inv(g, visited, on_stack, stack),
        0 <= s < g.len(),
        finished(visited, on_stack, s),
    ensures
        !cycle_reachable(g, s),
{
    if cycle_reachable(g, s) {
        let v = choose|v: int| #[trigger] reaches(g, s, v) && on_cycle(g, v);
        let p = choose|p: Seq<int>| #[trigger] is_path(g, p) && p[0] == s && p.last() == v;
        lemma_finished_closed(g, visited, on_stack, stack, p);
        assert(finished(visited, on_stack, p[p.len() - 1]));
        assert(is_node(g, p[p.len() - 1]));
    }
}

/// Number of unvisited nodes; it shrinks as the search goes on.
pub open spec fn count_unvisited(visited: Seq<bool>) -> nat
    decreases visited.len(),
{
    if visited.len() == 0 {
        0
    } else {
        count_unvisited(visited.drop_last()) + if visited.last() {
            0nat
        } else {
            1nat
        }
    }
}

proof fn lemma_count_unvisited_shrinks(a: Seq<bool>, b: Seq<bool>, u: int)
    requires
        a.len() == b.len(),
        forall|i: int| 0 <= i < a.len() && #[trigger] a[i] ==> b[i],
        0 <= u < a.len(),
        !a[u],
        b[u],
    ensures
        count_unvisited(b) < count_unvisited(a),
    decreases a.len(),
{
    lemma_count_unvisited_mono(a.drop_last(), b.drop_last());
    if u < a.len() - 1 {
        lemma_count_unvisited_shrinks(a.drop_last(), b.drop_last(), u);
    }
}

proof fn lemma_count_unvisited_mono(a: Seq<bool>, b: Seq<bool>)
    requires
        a.len() == b.len(),
        forall|i: int| 0 <= i < a.len() && #[trigger] a[i] ==> b[i],
    ensures
        count_unvisited(b) <= count_unvisited(a),
    decreases a.len(),
{
    if a.len() > 0 {
        assert forall|i: int| 0 <= i < a.drop_last().len() && #[trigger] a.drop_last()[i]
            implies b.drop_last()[i] by {
            assert(a[i]);
        }
        lemma_count_unvisited_mono(a.drop_last(), b.drop_last());
        assert(a.last() ==> b.last()) by {
            assert(a[a.len() - 1] ==> b[b.len() - 1]);
        }
    }
}

/// The graph as plain sequences.
pub open spec fn graph_view(adj: &Vec<Vec<usize>>) -> Seq<Seq<usize>> {
    Seq::new(adj@.len(), |i: int| adj@[i]@)
}

/// Every successor of `i` is visited.
pub open spec fn successors_visited(g: Seq<Seq<usize>>, visited: Seq<bool>, i: int) -> bool {
    forall|k: int| 0 <= k < g[i].len() ==> #[trigger] visited[g[i][k] as int]
}

/// The search state the cycle search is proved against: the search invariant
/// holds, and a nested search starts from an unvisited successor of the top of
/// the stack.
pub open spec fn search_ready(
    g: Seq<Seq<usize>>,
    visited: Seq<bool>,
    on_stack: Seq<bool>,
    stack: Seq<int>,
    u: int,
) -> bool {
    &&& dfs_inv(g, visited, on_stack, stack)
    &&& stack.len() > 0 ==> edge(g, stack.last(), u)
    &&& stack.len() > 0 ==> !visited[u]
}

/// Depth-first search from `u` for a cycle. `visited` marks nodes already
/// reached by this or an earlier search; `on_stack` marks the nodes on the
/// current search path (the recursion stack).
///
/// Returns `true` when it meets an edge back to a node on the stack: a cycle
/// reachable from `u`. Returns `false` once `u` and everything reachable from it
/// has been searched without finding one; `u` is then finished.
pub(crate) fn has_cycle(
    adj: &Vec<Vec<usize>>,
    u: usize,
    visited: &mut Vec<bool>,
    on_stack: &mut Vec<bool>,
    Ghost(stack): Ghost<Seq<int>>,
) -> (found: bool)
    requires
        well_formed(graph_view(adj)),
        u < adj.len(),
        old(visited)@.len() == adj@.len(),
        old(on_stack)@.len() == adj@.len(),
        forall|i: int| 0 <= i < adj@.len() && #[trigger] old(on_stack)@[i] ==> old(visited)@[i],
        !old(on_stack)@[u as int],
    ensures
        final(visited)@.len() == old(visited)@.len(),
        final(on_stack)@.len() == old(on_stack)@.len(),
        forall|i: int| 0 <= i < old(visited)@.len() && #[trigger] old(visited)@[i] ==> final(visited)@[i],
        old(visited)@[u as int] ==> !found && final(visited)@ == old(visited)@ && final(on_stack)@ == old(
            on_stack,
        )@,
        !found ==> {
            &&& final(on_stack)@ == old(on_stack)@
            &&& final(visited)@[u as int]
            &&& forall|i: int|
                0 <= i < adj@.len() && #[trigger] final(visited)@[i] && !old(visited)@[i] ==> successors_visited(
                    graph_view(adj),
                    final(visited)@,
                    i,
                )
        },
        search_ready(graph_view(adj), old(visited)@, old(on_stack)@, stack, u as int) ==> {
            &&& found ==> cycle_reachable(graph_view(adj), u as int)
            &&& !found ==> dfs_inv(graph_view(adj), final(visited)@, final(on_stack)@, stack)
        },
    decreases count_unvisited(old(visited)@),
{
    let ghost g = graph_view(adj);
    let ghost old_visited = visited@;
    let ghost old_on_stack = on_stack@;
    let ghost ok = search_ready(g, old_visited, old_on_stack, stack, u as int);
    if !visited[u] {
        visited.set(u, true);
        on_stack.set(u, true);
        let ghost st = stack.push(u as int);
        proof {
          if ok {
            if stack.len() > 0 {
                lemma_path_push(g, stack, u as int);
            } else {
                lemma_single_path(g, u as int);
                assert(st =~= seq![u as int]);
            }
            assert forall|i: int| 0 <= i < g.len() implies (#[trigger] on_stack@[i] <==> st.contains(i)) by {
                if i == u {
                    assert(st[st.len() - 1] == u);
                } else {
                    assert(on_stack@[i] == old_on_stack[i]);
                    if stack.contains(i) {
                        let k = choose|k: int| 0 <= k < stack.len() && stack[k] == i;
                        assert(st[k] == i);
                    }
                    if st.contains(i) {
                        let k = choose|k: int| 0 <= k < st.len() && st[k] == i;
                        assert(k < stack.len());
                        assert(stack[k] == i);
                    }
                }
            }
            assert forall|i: int| 0 <= i < g.len() && #[trigger] finished(visited@, on_stack@, i)
                implies finished(old_visited, old_on_stack, i) by {
                assert(i != u);
            }
            assert forall|i: int, j: int|
                #![trigger finished(visited@, on_stack@, i), edge(g, i, j)]
                0 <= i < g.len() && finished(visited@, on_stack@, i) && edge(g, i, j) implies finished(
                    visited@,
                    on_stack@,
                    j,
                ) by {
                assert(finished(old_visited, old_on_stack, i));
                assert(finished(old_visited, old_on_stack, j));
                let k = choose|k: int| 0 <= k < g[i].len() && #[trigger] g[i][k] == j;
                assert(g[i][k] < g.len());
                assert(j != u);
            }
            assert(dfs_inv(g, visited@, on_stack@, st));
          }
        }
        let ghost entry_visited = visited@;
        let ghost entry_on_stack = on_stack@;
        let deps = &adj[u];
        let n_deps = deps.len();
        let mut idx: usize = 0;
        while idx < n_deps
            invariant
                g == graph_view(adj),
                well_formed(g),
                u < adj.len(),
                deps == &adj@[u as int],
                n_deps == deps@.len(),
                idx <= n_deps,
                st == stack.push(u as int),
                old_visited == old(visited)@,
                old_on_stack == old(on_stack)@,
                old_on_stack.len() == g.len(),
                old_visited.len() == g.len(),
                on_stack@.len() == g.len(),
                ok == search_ready(g, old_visited, old_on_stack, stack, u as int),
                ok ==> dfs_inv(g, visited@, on_stack@, st),
                entry_on_stack == old_on_stack.update(u as int, true),
                on_stack@ == entry_on_stack,
                forall|i: int| 0 <= i < g.len() && #[trigger] on_stack@[i] ==> visited@[i],
                forall|i: int|
                    0 <= i < g.len() && #[trigger] visited@[i] && !old_visited[i] && i != u ==> successors_visited(
                        g,
                        visited@,
                        i,
                    ),
                visited@.len() == old_visited.len(),
                forall|i: int| 0 <= i < old_visited.len() && #[trigger] old_visited[i] ==> visited@[i],
                visited@[u as int],
                !old_visited[u as int],
                forall|k: int| 0 <= k < idx ==> #[trigger] finished(visited@, on_stack@, deps@[k] as int),
            decreases n_deps - idx,
        {
            let d = deps[idx];
            proof {
                assert(g[u as int][idx as int] == d);
                assert(g[u as int] == deps@);
                assert(d < g.len());
                assert(edge(g, u as int, d as int));
            }
            if !visited[d] {
                proof {
                    lemma_count_unvisited_shrinks(old_visited, visited@, u as int);
                    assert(count_unvisited(visited@) < count_unvisited(old(visited)@));
                    assert(st.last() == u);
                }
                let ghost before_visited = visited@;
                let ghost before_on_stack = on_stack@;
                let sub = has_cycle(adj, d, visited, on_stack, Ghost(st));
                if sub {
                    proof {
                        if ok {
                            lemma_cycle_reachable_back(g, u as int, d as int);
                        }
                        assert(visited@.len() == old_visited.len());
                        assert(on_stack@.len() == old_on_stack.len());
                    }
                    return true;
                }
                proof {
                    assert forall|i: int|
                        0 <= i < g.len() && #[trigger] visited@[i] && !old_visited[i] && i != u implies successors_visited(
                        g,
                        visited@,
                        i,
                    ) by {
                        if before_visited[i] {
                            assert forall|k: int| 0 <= k < g[i].len() implies #[trigger] visited@[g[i][k] as int] by {
                                assert(g[i][k] < g.len());
                                assert(before_visited[g[i][k] as int]);
                            }
                        }
                    }
                    assert forall|k: int| 0 <= k < idx + 1 implies #[trigger] finished(
                        visited@,
                        on_stack@,
                        deps@[k] as int,
                    ) by {
                        if k < idx {
                            let dk = deps@[k] as int;
                            assert(finished(before_visited, before_on_stack, dk));
                            assert(visited@[dk]);
                        }
                    }
                }
            } else if on_stack[d] {
                proof {
                  if ok {
                    // `d` is on the stack: the stack from `d` to `u`, then the edge back to `d`.
                    assert(st.contains(d as int));
                    let m = choose|m: int| 0 <= m < st.len() && st[m] == d as int;
                    lemma_path_suffix(g, st, m);
                    let cyc = st.subrange(m, st.len() as int);
                    assert(cyc.last() == u);
                    lemma_path_push(g, cyc, d as int);
                    let cyc2 = cyc.push(d as int);
                    assert(is_path(g, cyc2) && cyc2.len() >= 2 && cyc2[0] == d && cyc2.last() == d);
                    assert(on_cycle(g, d as int));
                    lemma_single_path(g, d as int);
                    lemma_edge_then_reaches(g, u as int, d as int, d as int);
                    assert(reaches(g, u as int, d as int));
                  }
                }
                return true;
            }
            idx = idx + 1;
        }
        on_stack.set(u, false);
        proof {
            assert(on_stack@ =~= old_on_stack);
            assert forall|k: int| 0 <= k < g[u as int].len() implies #[trigger] visited@[g[u as int][k] as int] by {
                assert(deps@[k] == g[u as int][k]);
                assert(finished(visited@, entry_on_stack, deps@[k] as int));
            }
            assert(successors_visited(g, visited@, u as int));
        }
        proof {
          if ok {
            assert(st.last() == u as int);
            // every successor of `u` is finished
            assert forall|j: int| #[trigger] edge(g, u as int, j) implies finished(visited@, on_stack@, j) by {
                let k = choose|k: int| 0 <= k < g[u as int].len() && #[trigger] g[u as int][k] == j;
                assert(deps@[k] == j);
                assert(finished(visited@, entry_on_stack, j));
                assert(j != u);
            }
            let vis = visited@;
            let ons = on_stack@;
            let pre_ons = entry_on_stack;
            assert forall|i: int| 0 <= i < g.len() implies (#[trigger] ons[i] <==> stack.contains(i)) by {
                if i == u {
                    // `u` was not on the stack on entry
                    assert(!old_on_stack[i]);
                } else {
                    assert(ons[i] == pre_ons[i]);
                    if stack.contains(i) {
                        let k = choose|k: int| 0 <= k < stack.len() && stack[k] == i;
                        assert(st[k] == i);
                    }
                    if st.contains(i) {
                        let k = choose|k: int| 0 <= k < st.len() && st[k] == i;
                        assert(k < stack.len());
                        assert(stack[k] == i);
                    }
                }
            }
            assert forall|i: int, j: int|
                #![trigger finished(vis, ons, i), edge(g, i, j)]
                0 <= i < g.len() && finished(vis, ons, i) && edge(g, i, j) implies finished(
                    vis,
                    ons,
                    j,
                ) by {
                if i != u {
                    assert(finished(vis, pre_ons, i));
                    assert(finished(vis, pre_ons, j));
                    assert(j != u);
                }
            }
            // `u` is not on a cycle: a cycle through `u` would leave `u` into the
            // finished nodes, and no walk leads from them back to the unfinished `u`.
            assert(!on_cycle(g, u as int)) by {
                if on_cycle(g, u as int) {
                    let p = choose|p: Seq<int>| #[trigger] is_path(g, p) && p.len() >= 2 && p[0] == u as int
                        && p.last() == u as int;
                    assert(step_ok(g, p, 0));
                    assert(finished(vis, pre_ons, p[1]));
                    lemma_path_suffix(g, p, 1);
                    let q = p.subrange(1, p.len() as int);
                    lemma_finished_closed(g, vis, pre_ons, st, q);
                    assert(finished(vis, pre_ons, q[q.len() - 1]));
                }
            }
            assert forall|i: int| 0 <= i < g.len() && #[trigger] finished(vis, ons, i) implies !on_cycle(
                g,
                i,
            ) by {
                if i != u {
                    assert(finished(vis, pre_ons, i));
                }
            }
            assert(ons =~= old_on_stack);
            assert(dfs_inv(g, vis, ons, stack));
          }
        }
    }
    false
}

} // verus!
