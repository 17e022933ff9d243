//! The reverse view of the dependency graph that the scheduler works with:
//! for each task, how many dependencies it lists and which tasks depend on it.
use crate::graph::{edge, graph_view, well_formed};
use vstd::prelude::*;

verus! {

/// How many entries of `s` equal `x`.
pub open spec fn count_in(s: Seq<usize>, x: int) -> nat
    decreases s.len(),
{
    if s.len() == 0 {
        0
    } else {
        count_in(s.drop_last(), x) + if s.last() == x {
            1nat
        } else {
            0nat
        }
    }
}

/// The tasks among `0..m` that depend on `j`, in order, each repeated once per
/// listed dependency on `j`.
pub open spec fn dependents_prefix(g: Seq<Seq<usize>>, j: int, m: int) -> Seq<usize>
    decreases m,
{
    if m <= 0 {
        Seq::empty()
    } else {
        dependents_prefix(g, j, m - 1) + Seq::new(count_in(g[m - 1], j), |_k: int| (m - 1) as usize)
    }
}

/// The tasks that depend on `j`, in task order, each repeated once per listed
/// dependency on `j`.
pub open spec fn dependents_of(g: Seq<Seq<usize>>, j: int) -> Seq<usize> {
    dependents_prefix(g, j, g.len() as int)
}

/// For each task: the number of dependencies it lists, and the tasks that depend on it.
pub struct DependencyGraph {
    /// Number of dependencies of each task.
    pub in_degree: Vec<usize>,
    /// Tasks that depend on each task.
    pub dependents: Vec<Vec<usize>>,
}

pub proof fn lemma_count_in_take_step(s: Seq<usize>, k: int, x: int)
    requires
        0 <= k < s.len(),
    ensures
        count_in(s.take(k + 1), x) == count_in(s.take(k), x) + if s[k] == x {
            1nat
        } else {
            0nat
        },
{
    assert(s.take(k + 1).drop_last() =~= s.take(k));
}

pub proof fn lemma_count_in_take_le(s: Seq<usize>, k: int, x: int)
    requires
        0 <= k <= s.len(),
    ensures
        count_in(s.take(k), x) <= count_in(s, x),
    decreases s.len() - k,
{
    if k < s.len() {
        lemma_count_in_take_step(s, k, x);
        lemma_count_in_take_le(s, k + 1, x);
    } else {
        assert(s.take(k) =~= s);
    }
}

pub proof fn lemma_count_in_concat(a: Seq<usize>, b: Seq<usize>, x: int)
    ensures
        count_in(a + b, x) == count_in(a, x) + count_in(b, x),
    decreases b.len(),
{
    if b.len() == 0 {
        assert(a + b =~= a);
    } else {
        assert((a + b).drop_last() =~= a + b.drop_last());
        lemma_count_in_concat(a, b.drop_last(), x);
    }
}

pub proof fn lemma_count_in_repeat(n: nat, v: usize, x: int)
    ensures
        count_in(Seq::new(n, |_k: int| v), x) == if v == x {
            n
        } else {
            0
        },
    decreases n,
{
    if n > 0 {
        assert(Seq::new(n, |_k: int| v).drop_last() =~= Seq::new((n - 1) as nat, |_k: int| v));
        lemma_count_in_repeat((n - 1) as nat, v, x);
    }
}

/// `x` is counted in `s` exactly when it occurs there.
pub proof fn lemma_count_in_pos(s: Seq<usize>, x: int)
    ensures
        count_in(s, x) > 0 <==> exists|k: int| 0 <= k < s.len() && s[k] == x,
    decreases s.len(),
{
    if s.len() > 0 {
        lemma_count_in_pos(s.drop_last(), x);
        if count_in(s.drop_last(), x) > 0 {
            let k = choose|k: int| 0 <= k < s.drop_last().len() && s.drop_last()[k] == x;
            assert(s[k] == x);
        }
        if exists|k: int| 0 <= k < s.len() && s[k] == x {
            let k = choose|k: int| 0 <= k < s.len() && s[k] == x;
            if k < s.len() - 1 {
                assert(s.drop_last()[k] == x);
            }
        }
    }
}

/// How often task `i` appears among the dependents of `j`: once per listed
/// dependency of `i` on `j`.
pub proof fn lemma_dependents_count(g: Seq<Seq<usize>>, j: int, m: int, i: int)
    requires
        0 <= m <= g.len(),
        g.len() <= usize::MAX,
    ensures
        count_in(dependents_prefix(g, j, m), i) == if 0 <= i < m {
            count_in(g[i], j)
        } else {
            0
        },
    decreases m,
{
    if m > 0 {
        lemma_dependents_count(g, j, m - 1, i);
        lemma_count_in_concat(
            dependents_prefix(g, j, m - 1),
            Seq::new(count_in(g[m - 1], j), |_k: int| (m - 1) as usize),
            i,
        );
        lemma_count_in_repeat(count_in(g[m - 1], j), (m - 1) as usize, i);
    }
}

/// Every dependent of `j` is a task with an edge to `j`.
pub proof fn lemma_dependents_edge(g: Seq<Seq<usize>>, j: int, m: int, p: int)
    requires
        0 <= m <= g.len(),
        g.len() <= usize::MAX,
        0 <= p < dependents_prefix(g, j, m).len(),
    ensures
        0 <= dependents_prefix(g, j, m)[p] < m,
        edge(g, dependents_prefix(g, j, m)[p] as int, j),
    decreases m,
{
    let prev = dependents_prefix(g, j, m - 1);
    let rep = Seq::new(count_in(g[m - 1], j), |_k: int| (m - 1) as usize);
    assert(dependents_prefix(g, j, m) == prev + rep);
    if p < prev.len() {
        lemma_dependents_edge(g, j, m - 1, p);
    } else {
        assert(dependents_prefix(g, j, m)[p] == m - 1);
        lemma_count_in_pos(g[m - 1], j);
    }
}

/// The dependents of `j` are listed in task order.
pub proof fn lemma_dependents_sorted(g: Seq<Seq<usize>>, j: int, m: int, p: int, q: int)
    requires
        0 <= m <= g.len(),
        g.len() <= usize::MAX,
        0 <= p <= q < dependents_prefix(g, j, m).len(),
    ensures
        dependents_prefix(g, j, m)[p] <= dependents_prefix(g, j, m)[q],
    decreases m,
{
    let prev = dependents_prefix(g, j, m - 1);
    let rep = Seq::new(count_in(g[m - 1], j), |_k: int| (m - 1) as usize);
    assert(dependents_prefix(g, j, m) == prev + rep);
    if q < prev.len() {
        lemma_dependents_sorted(g, j, m - 1, p, q);
    } else if p < prev.len() {
        lemma_dependents_edge(g, j, m - 1, p);
    }
}

/// Builds the in-degree of every task and the list of dependents of every task.
pub fn build_dependency_graph(adj: &Vec<Vec<usize>>) -> (res: DependencyGraph)
    requires
        well_formed(graph_view(adj)),
    ensures
        res.in_degree@.len() == adj@.len(),
        res.dependents@.len() == adj@.len(),
        forall|i: int| 0 <= i < adj@.len() ==> #[trigger] res.in_degree@[i] == adj@[i]@.len(),
        forall|j: int| 0 <= j < adj@.len() ==> #[trigger] res.dependents@[j]@ == dependents_of(
            graph_view(adj),
            j,
        ),
{
    let ghost g = graph_view(adj);
    let n = adj.len();
    let mut in_degree: Vec<usize> = Vec::new();
    let mut i: usize = 0;
    while i < n
        invariant
            n == adj@.len(),
            i <= n,
            in_degree@.len() == i,
            forall|i2: int| 0 <= i2 < i ==> #[trigger] in_degree@[i2] == adj@[i2]@.len(),
        decreases n - i,
    {
        in_degree.push(adj[i].len());
        i = i + 1;
    }
    let mut dependents: Vec<Vec<usize>> = Vec::new();
    let mut j: usize = 0;
    while j < n
        invariant
            g == graph_view(adj),
            n == adj@.len(),
            j <= n,
            dependents@.len() == j,
            forall|j2: int| 0 <= j2 < j ==> #[trigger] dependents@[j2]@ == dependents_of(g, j2),
        decreases n - j,
    {
        let mut row: Vec<usize> = Vec::new();
        let mut t: usize = 0;
        while t < n
            invariant
                g == graph_view(adj),
                n == adj@.len(),
                j < n,
                t <= n,
                row@ == dependents_prefix(g, j as int, t as int),
            decreases n - t,
        {
            let deps = &adj[t];
            let m = deps.len();
            let mut k: usize = 0;
            while k < m
                invariant
                    g == graph_view(adj),
                    n == adj@.len(),
                    t < n,
                    deps == &adj@[t as int],
                    m == deps@.len(),
                    k <= m,
                    row@ == dependents_prefix(g, j as int, t as int) + Seq::new(
                        count_in(deps@.take(k as int), j as int),
                        |_k: int| t,
                    ),
                decreases m - k,
            {
                proof {
                    lemma_count_in_take_step(deps@, k as int, j as int);
                }
                if deps[k] == j {
                    row.push(t);
                }
                proof {
                    assert(row@ =~= dependents_prefix(g, j as int, t as int) + Seq::new(
                        count_in(deps@.take(k + 1), j as int),
                        |_k: int| t,
                    ));
                }
                k = k + 1;
            }
            proof {
                assert(deps@.take(m as int) =~= deps@);
                assert(g[t as int] == deps@);
                assert(row@ =~= dependents_prefix(g, j as int, t + 1));
            }
            t = t + 1;
        }
        dependents.push(row);
        j = j + 1;
    }
    DependencyGraph { in_degree, dependents }
}

} // verus!
