use vstd::prelude::*;
use crate::types::SherlockGraph;

verus! {

/// Every node reaches itself.
pub proof fn lemma_reaches_refl(g: SherlockGraph, u: int)
    ensures
        g.reaches(u, u),
{
    reveal(SherlockGraph::reaches);
    let p = seq![u];
    assert(g.is_walk(p));
}

/// A walk to `v` extends by any edge leaving `v`.
pub proof fn lemma_reaches_step(g: SherlockGraph, u: int, v: int, k: int)
    requires
        g.reaches(u, v),
        0 <= v < g.adj_list@.len(),
        0 <= k < g.out(v).len(),
    ensures
        g.reaches(u, g.out(v)[k].target_idx as int),
{
    reveal(SherlockGraph::reaches);
    let p = choose|p: Seq<int>| #[trigger] g.is_walk(p) && p[0] == u && p[p.len() - 1] == v;
    let w = g.out(v)[k].target_idx as int;
    let q = p.push(w);
    assert(g.has_edge(v, w));
    assert forall|i: int| #![trigger q[i]] 0 <= i < q.len() - 1 implies g.has_edge(q[i], q[i + 1]) by {
        if i < p.len() - 1 {
            assert(q[i] == p[i] && q[i + 1] == p[i + 1]);
        }
    }
    assert(g.is_walk(q));
}

/// A single edge is a walk.
pub proof fn lemma_reaches_edge(g: SherlockGraph, u: int, k: int)
    requires
        0 <= u < g.adj_list@.len(),
        0 <= k < g.out(u).len(),
    ensures
        g.reaches(u, g.out(u)[k].target_idx as int),
{
    lemma_reaches_refl(g, u);
    lemma_reaches_step(g, u, u, k);
}

/// Reachability is transitive.
pub proof fn lemma_reaches_trans(g: SherlockGraph, a: int, b: int, c: int)
    requires
        g.reaches(a, b),
        g.reaches(b, c),
    ensures
        g.reaches(a, c),
{
    reveal(SherlockGraph::reaches);
    let p = choose|p: Seq<int>| #[trigger] g.is_walk(p) && p[0] == a && p[p.len() - 1] == b;
    let q = choose|q: Seq<int>| #[trigger] g.is_walk(q) && q[0] == b && q[q.len() - 1] == c;
    let r = p + q.drop_first();
    assert forall|i: int| #![trigger r[i]] 0 <= i < r.len() - 1 implies g.has_edge(r[i], r[i + 1]) by {
        if i < p.len() - 1 {
            assert(r[i] == p[i] && r[i + 1] == p[i + 1]);
        } else {
            let j = i - p.len() + 1;
            assert(r[i] == q[j]);
            assert(r[i + 1] == q[j + 1]);
            assert(g.has_edge(q[j], q[j + 1]));
        }
    }
    assert(g.is_walk(r));
}

/// A walk never leaves a set of nodes that every edge maps into itself.
pub proof fn lemma_reaches_closed(g: SherlockGraph, inside: spec_fn(int) -> bool, a: int, z: int)
    requires
        g.adj_wf(),
        forall|x: int, k: int| 0 <= x < g.n() && inside(x) && 0 <= k < g.out(x).len()
            ==> #[trigger] inside(g.out(x)[k].target_idx as int),
        0 <= a < g.n(),
        inside(a),
        g.reaches(a, z),
    ensures
        inside(z),
{
    let f = |x: int| if inside(x) { 0int } else { 1int };
    assert forall|x: int, k: int| 0 <= x < g.n() && 0 <= k < g.out(x).len()
        implies #[trigger] f(g.out(x)[k].target_idx as int) <= f(x) by {
        if inside(x) {
            assert(inside(g.out(x)[k].target_idx as int));
        }
    }
    lemma_reaches_descending(g, f, a, z);
}

/// Along a walk, a measure that no edge increases never increases.
pub proof fn lemma_reaches_descending(g: SherlockGraph, f: spec_fn(int) -> int, a: int, z: int)
    requires
        g.adj_wf(),
        forall|x: int, k: int| 0 <= x < g.n() && 0 <= k < g.out(x).len()
            ==> #[trigger] f(g.out(x)[k].target_idx as int) <= f(x),
        g.reaches(a, z),
    ensures
        f(z) <= f(a),
{
    reveal(SherlockGraph::reaches);
    let p = choose|p: Seq<int>| #[trigger] g.is_walk(p) && p[0] == a && p[p.len() - 1] == z;
    lemma_walk_descending(g, f, p, 0);
}

proof fn lemma_walk_descending(g: SherlockGraph, f: spec_fn(int) -> int, p: Seq<int>, i: int)
    requires
        g.adj_wf(),
        forall|x: int, k: int| 0 <= x < g.n() && 0 <= k < g.out(x).len()
            ==> #[trigger] f(g.out(x)[k].target_idx as int) <= f(x),
        g.is_walk(p),
        0 <= i < p.len(),
    ensures
        f(p[p.len() - 1]) <= f(p[i]),
    decreases p.len() - i,
{
    if i < p.len() - 1 {
        assert(g.has_edge(p[i], p[i + 1]));
        let k = choose|k: int| 0 <= k < g.out(p[i]).len() && #[trigger] g.out(p[i])[k].target_idx == p[i + 1];
        assert(f(g.out(p[i])[k].target_idx as int) <= f(p[i]));
        lemma_walk_descending(g, f, p, i + 1);
    }
}

} // verus!
