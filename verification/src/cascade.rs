//! When a task fails, every task downstream of it is marked failed: the
//! dependents of the failed task, then their dependents, and so on, depth
//! first, in the order of the dependents lists. A task reached along several
//! routes is marked once per route.
use crate::dependency::{
    dependents_of, lemma_count_in_pos, lemma_dependents_count, lemma_dependents_edge,
};
use crate::graph::{
    edge, is_acyclic, is_node, is_path, lemma_edge_then_reaches, lemma_path_push, lemma_reaches_trans,
    lemma_single_path, on_cycle, reaches, step_ok, well_formed,
};
use vstd::prelude::*;

verus! {

/// The tasks from which `f` can be reached by following dependencies
/// (`f` included).
pub open spec fn ancestors(g: Seq<Seq<usize>>, f: int) -> Set<int> {
    Set::new(|x: int| 0 <= x < g.len() && reaches(g, x, f))
}

/// The graph conditions under which the cascade is defined.
pub open spec fn cascade_ok(g: Seq<Seq<usize>>) -> bool {
    &&& well_formed(g)
    &&& is_acyclic(g)
    &&& g.len() <= usize::MAX
}

/// In an acyclic graph, a task that depends on `f` has fewer ancestors than `f`.
pub proof fn lemma_ancestors_shrink(g: Seq<Seq<usize>>, f: int, d: int)
    requires
        cascade_ok(g),
        is_node(g, f),
        edge(g, d, f),
    ensures
        ancestors(g, d).finite(),
        ancestors(g, f).finite(),
        ancestors(g, d).len() < ancestors(g, f).len(),
{
    let af = ancestors(g, f);
    let ad = ancestors(g, d);
    vstd::set_lib::lemma_int_range(0, g.len() as int);
    assert(af.subset_of(vstd::set_lib::set_int_range(0, g.len() as int)));
    vstd::set_lib::lemma_len_subset(af, vstd::set_lib::set_int_range(0, g.len() as int));
    lemma_single_path(g, f);
    assert(af.contains(f));
    assert forall|x: int| ad.contains(x) implies af.remove(f).contains(x) by {
        lemma_single_path(g, f);
        lemma_edge_then_reaches(g, d, f, f);
        crate::graph::lemma_reaches_trans(g, x, d, f);
        if x == f {
            // `f` would reach `d`, and `d` depends on `f`: a cycle through `f`
            let p = choose|p: Seq<int>| #[trigger] is_path(g, p) && p[0] == f && p.last() == d;
            lemma_path_push(g, p, f);
            let q = p.push(f);
            assert(is_path(g, q) && q.len() >= 2 && q[0] == f && q.last() == f);
            assert(on_cycle(g, f));
        }
    }
    vstd::set_lib::lemma_len_subset(ad, af.remove(f));
    vstd::set::axiom_set_remove_len(af, f);
}

/// The tasks marked failed when `f` fails, in order, with repeats.
pub open spec fn cascade(g: Seq<Seq<usize>>, f: int) -> Seq<usize>
    decreases ancestors(g, f).len(), 1int, 0int,
    when cascade_ok(g) && is_node(g, f)
{
    cascade_from(g, f, 0)
}

/// The part of the cascade of `f` that starts at its `k`-th dependent.
pub open spec fn cascade_from(g: Seq<Seq<usize>>, f: int, k: int) -> Seq<usize>
    decreases ancestors(g, f).len(), 0int, dependents_of(g, f).len() - k,
    when cascade_ok(g) && is_node(g, f) && 0 <= k
{
    if k >= dependents_of(g, f).len() {
        Seq::empty()
    } else {
        let d = dependents_of(g, f)[k] as int;
        proof {
            lemma_dependents_edge(g, f, g.len() as int, k);
            lemma_ancestors_shrink(g, f, d);
        }
        seq![d as usize] + cascade(g, d) + cascade_from(g, f, k + 1)
    }
}

/// `x` depends on `f`, directly or through other tasks.
pub open spec fn depends_transitively(g: Seq<Seq<usize>>, x: int, f: int) -> bool {
    exists|d: int| #[trigger] edge(g, x, d) && reaches(g, d, f)
}

/// Some dependency of `x` is `f` or occurs in `s`.
pub open spec fn has_dep_among(g: Seq<Seq<usize>>, x: int, f: int, s: Seq<usize>) -> bool {
    exists|k: int| 0 <= k < g[x].len() && (#[trigger] g[x][k] == f || s.contains(g[x][k]))
}

/// What holds of each task marked failed in the cascade of `f`.
pub open spec fn cascade_member_ok(g: Seq<Seq<usize>>, f: int, s: Seq<usize>, x: int) -> bool {
    &&& is_node(g, x)
    &&& depends_transitively(g, x, f)
    &&& has_dep_among(g, x, f, s)
}

/// Every task in the cascade of `f` depends on `f`, directly or not, and has a
/// dependency that is `f` or is itself in the cascade.
pub proof fn lemma_cascade_members(g: Seq<Seq<usize>>, f: int)
    requires
        cascade_ok(g),
        is_node(g, f),
    ensures
        forall|p: int|
            0 <= p < cascade(g, f).len() ==> cascade_member_ok(g, f, cascade(g, f), #[trigger] cascade(g, f)[p] as int),
    decreases ancestors(g, f).len(), 1int, 0int,
{
    lemma_cascade_from_members(g, f, 0);
    assert(cascade(g, f) == cascade_from(g, f, 0));
}

proof fn lemma_cascade_from_members(g: Seq<Seq<usize>>, f: int, k: int)
    requires
        cascade_ok(g),
        is_node(g, f),
        0 <= k,
    ensures
        forall|p: int|
            0 <= p < cascade_from(g, f, k).len() ==> cascade_member_ok(
                g,
                f,
                cascade_from(g, f, k),
                #[trigger] cascade_from(g, f, k)[p] as int,
            ),
    decreases ancestors(g, f).len(), 0int, dependents_of(g, f).len() - k,
{
    if k < dependents_of(g, f).len() {
        let d = dependents_of(g, f)[k] as int;
        lemma_dependents_edge(g, f, g.len() as int, k);
        lemma_ancestors_shrink(g, f, d);
        lemma_cascade_members(g, d);
        lemma_cascade_from_members(g, f, k + 1);
        let cd = cascade(g, d);
        let rest = cascade_from(g, f, k + 1);
        let whole = cascade_from(g, f, k);
        assert(whole == seq![d as usize] + cd + rest);
        lemma_single_path(g, f);
        lemma_edge_then_reaches(g, d, f, f);
        assert forall|p: int| 0 <= p < whole.len() implies cascade_member_ok(
            g,
            f,
            whole,
            #[trigger] whole[p] as int,
        ) by {
            let x = whole[p] as int;
            if p == 0 {
                assert(x == d);
                assert(depends_transitively(g, x, f));
                let kk = choose|kk: int| 0 <= kk < g[d].len() && #[trigger] g[d][kk] == f;
                assert(has_dep_among(g, x, f, whole));
            } else if p < 1 + cd.len() {
                assert(x == cd[p - 1] as int);
                assert(cascade_member_ok(g, d, cd, cd[p - 1] as int));
                let e = choose|e: int| #[trigger] edge(g, x, e) && reaches(g, e, d);
                lemma_reaches_trans(g, e, d, f);
                assert(depends_transitively(g, x, f));
                let kk = choose|kk: int| 0 <= kk < g[x].len() && (#[trigger] g[x][kk] == d || cd.contains(g[x][kk]));
                if g[x][kk] == d {
                    assert(whole[0] == d);
                    assert(whole.contains(g[x][kk]));
                } else {
                    let q = choose|q: int| 0 <= q < cd.len() && cd[q] == g[x][kk];
                    assert(whole[1 + q] == cd[q]);
                    assert(whole.contains(g[x][kk]));
                }
                assert(has_dep_among(g, x, f, whole));
            } else {
                let r = p - 1 - cd.len();
                assert(x == rest[r] as int);
                assert(cascade_member_ok(g, f, rest, rest[r] as int));
                let kk = choose|kk: int| 0 <= kk < g[x].len() && (#[trigger] g[x][kk] == f || rest.contains(g[x][kk]));
                if g[x][kk] != f {
                    let q = choose|q: int| 0 <= q < rest.len() && rest[q] == g[x][kk];
                    assert(whole[1 + cd.len() + q] == rest[q]);
                    assert(whole.contains(g[x][kk]));
                }
                assert(has_dep_among(g, x, f, whole));
            }
        }
    }
}

/// The part of the cascade from the `k`-th dependent on holds each later
/// dependent and its whole cascade.
proof fn lemma_cascade_from_holds(g: Seq<Seq<usize>>, f: int, k: int, k2: int)
    requires
        cascade_ok(g),
        is_node(g, f),
        0 <= k <= k2 < dependents_of(g, f).len(),
    ensures
        cascade_from(g, f, k).contains(dependents_of(g, f)[k2]),
        forall|y: usize| cascade(g, dependents_of(g, f)[k2] as int).contains(y) ==> #[trigger] cascade_from(
            g,
            f,
            k,
        ).contains(y),
    decreases k2 - k,
{
    let d = dependents_of(g, f)[k] as int;
    lemma_dependents_edge(g, f, g.len() as int, k);
    lemma_ancestors_shrink(g, f, d);
    let cd = cascade(g, d);
    let rest = cascade_from(g, f, k + 1);
    let whole = cascade_from(g, f, k);
    assert(whole == seq![d as usize] + cd + rest);
    if k == k2 {
        assert(whole[0] == d);
        assert forall|y: usize| cd.contains(y) implies #[trigger] whole.contains(y) by {
            let q = choose|q: int| 0 <= q < cd.len() && cd[q] == y;
            assert(whole[1 + q] == y);
        }
    } else {
        lemma_cascade_from_holds(g, f, k + 1, k2);
        let e = dependents_of(g, f)[k2];
        let q = choose|q: int| 0 <= q < rest.len() && rest[q] == e;
        assert(whole[1 + cd.len() + q] == e);
        assert forall|y: usize| cascade(g, e as int).contains(y) implies #[trigger] whole.contains(y) by {
            assert(rest.contains(y));
            let q2 = choose|q2: int| 0 <= q2 < rest.len() && rest[q2] == y;
            assert(whole[1 + cd.len() + q2] == y);
        }
    }
}

/// A task that depends directly on `f` is in the cascade of `f`, and so is
/// its whole cascade.
proof fn lemma_cascade_holds_dependent(g: Seq<Seq<usize>>, f: int, x: int)
    requires
        cascade_ok(g),
        is_node(g, f),
        is_node(g, x),
        edge(g, x, f),
    ensures
        cascade(g, f).contains(x as usize),
        forall|y: usize| cascade(g, x).contains(y) ==> #[trigger] cascade(g, f).contains(y),
{
    let dl = dependents_of(g, f);
    lemma_dependents_count(g, f, g.len() as int, x);
    lemma_count_in_pos(g[x], f);
    lemma_count_in_pos(dl, x);
    let k2 = choose|k2: int| 0 <= k2 < dl.len() && dl[k2] == x;
    lemma_cascade_from_holds(g, f, 0, k2);
    assert(cascade(g, f) == cascade_from(g, f, 0));
}

/// A task downstream of `f` along the walk `p` (from a dependency of `x` to `f`)
/// is in the cascade of `f`.
proof fn lemma_cascade_complete_path(g: Seq<Seq<usize>>, f: int, x: int, p: Seq<int>)
    requires
        cascade_ok(g),
        is_node(g, x),
        is_path(g, p),
        edge(g, x, p[0]),
        p.last() == f,
    ensures
        cascade(g, f).contains(x as usize),
    decreases p.len(),
{
    assert(is_node(g, p[p.len() - 1]));
    if p.len() == 1 {
        lemma_cascade_holds_dependent(g, f, x);
    } else {
        let q = p[p.len() - 2];
        assert(step_ok(g, p, p.len() - 2));
        assert(is_node(g, q));
        let p2 = p.drop_last();
        assert(is_path(g, p2)) by {
            assert forall|m: int| 0 <= m < p2.len() - 1 implies #[trigger] step_ok(g, p2, m) by {
                assert(step_ok(g, p, m));
            }
        }
        lemma_cascade_complete_path(g, q, x, p2);
        lemma_cascade_holds_dependent(g, f, q);
    }
}

/// Every task that depends on `f`, directly or through other tasks, is marked
/// failed when `f` fails.
pub proof fn lemma_cascade_complete(g: Seq<Seq<usize>>, f: int, x: int)
    requires
        cascade_ok(g),
        is_node(g, f),
        is_node(g, x),
        depends_transitively(g, x, f),
    ensures
        cascade(g, f).contains(x as usize),
{
    let d = choose|d: int| #[trigger] edge(g, x, d) && reaches(g, d, f);
    let p = choose|p: Seq<int>| #[trigger] is_path(g, p) && p[0] == d && p.last() == f;
    lemma_cascade_complete_path(g, f, x, p);
}

/// The cascade of `f` holds exactly the tasks downstream of `f`.
pub proof fn lemma_cascade_exact(g: Seq<Seq<usize>>, f: int)
    requires
        cascade_ok(g),
        is_node(g, f),
    ensures
        forall|x: int| is_node(g, x) ==> (cascade(g, f).contains(x as usize) <==> #[trigger] depends_transitively(g, x, f)),
{
    lemma_cascade_members(g, f);
    assert forall|x: int| is_node(g, x) implies (cascade(g, f).contains(x as usize) <==> #[trigger] depends_transitively(g, x, f)) by {
        if depends_transitively(g, x, f) {
            lemma_cascade_complete(g, f, x);
        }
        if cascade(g, f).contains(x as usize) {
            let q = choose|q: int| 0 <= q < cascade(g, f).len() && cascade(g, f)[q] == x as usize;
            assert(cascade_member_ok(g, f, cascade(g, f), cascade(g, f)[q] as int));
        }
    }
}

/// The tasks that `x` depends on, directly or not, with `x` itself.
pub open spec fn descendants(g: Seq<Seq<usize>>, x: int) -> Set<int> {
    Set::new(|y: int| 0 <= y < g.len() && reaches(g, x, y))
}

/// In an acyclic graph, a dependency of `x` has fewer tasks below it than `x`.
pub proof fn lemma_descendants_shrink(g: Seq<Seq<usize>>, x: int, d: int)
    requires
        cascade_ok(g),
        is_node(g, x),
        edge(g, x, d),
    ensures
        descendants(g, d).finite(),
        descendants(g, x).finite(),
        descendants(g, d).len() < descendants(g, x).len(),
{
    let dx = descendants(g, x);
    let dd = descendants(g, d);
    vstd::set_lib::lemma_int_range(0, g.len() as int);
    assert(dx.subset_of(vstd::set_lib::set_int_range(0, g.len() as int)));
    vstd::set_lib::lemma_len_subset(dx, vstd::set_lib::set_int_range(0, g.len() as int));
    lemma_single_path(g, x);
    assert(dx.contains(x));
    assert forall|y: int| dd.contains(y) implies dx.remove(x).contains(y) by {
        lemma_edge_then_reaches(g, x, d, y);
        if y == x {
            // `d` would reach `x`, and `x` depends on `d`: a cycle through `x`
            let p = choose|p: Seq<int>| #[trigger] is_path(g, p) && p[0] == d && p.last() == x;
            lemma_single_path(g, x);
            lemma_path_push(g, seq![x], d);
            let q = seq![x].push(d);
            assert(q[0] == x && q.last() == d);
            crate::graph::lemma_path_concat(g, q, p);
            let c = q + p.subrange(1, p.len() as int);
            assert(is_path(g, c) && c.len() >= 2 && c[0] == x && c.last() == x);
            assert(on_cycle(g, x));
        }
    }
    vstd::set_lib::lemma_len_subset(dd, dx.remove(x));
    vstd::set::axiom_set_remove_len(dx, x);
}

/// Depending on something that depends on `t` is depending on `t`.
pub proof fn lemma_depends_trans(g: Seq<Seq<usize>>, x: int, f: int, t: int)
    requires
        well_formed(g),
        depends_transitively(g, x, f),
        depends_transitively(g, f, t),
    ensures
        depends_transitively(g, x, t),
{
    let e = choose|e: int| #[trigger] edge(g, x, e) && reaches(g, e, f);
    let d = choose|d: int| #[trigger] edge(g, f, d) && reaches(g, d, t);
    lemma_edge_then_reaches(g, f, d, t);
    lemma_reaches_trans(g, e, f, t);
}

} // verus!
