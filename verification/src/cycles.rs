use vstd::prelude::*;
use crate::types::SherlockGraph;

verus! {

/// The target of edge `j` of node `u`.
pub open spec fn edge_target(g: SherlockGraph, u: int, j: int) -> int {
    g.out(u)[j].target_idx as int
}

/// Whether node `v` carries component label `c`.
pub open spec fn in_scc(g: SherlockGraph, v: int, c: usize) -> bool {
    g.nodes@[v].scc_id == Some(c)
}

/// Edge `j` is the first edge of node `u` that leads to its target (parallel edges
/// after it are not followed again).
pub open spec fn first_to(g: SherlockGraph, u: int, j: int) -> bool {
    forall|i: int| 0 <= i < j ==> #[trigger] edge_target(g, u, i) != edge_target(g, u, j)
}

/// The cycles that the depth-first search from `start` (within component `c`, along
/// paths of at most `k` nodes) reports while it stands on the path `p` and works through
/// the edges of `p`'s last node from edge `j` on. Only the first edge to each target is
/// followed; an edge back to `start` closes the path into a cycle (when the path has at
/// least two nodes), an edge to a component node above `start` that is not yet on the
/// path extends it, every other edge is ignored. So each cycle is found once, from its
/// smallest node.
pub open spec fn dfs_cycles(g: SherlockGraph, start: int, c: usize, k: int, p: Seq<int>, j: int) -> Seq<Seq<usize>>
    decreases k + 1 - p.len(), g.out(p.last()).len() - j,
{
    if p.len() == 0 || p.len() > k || j < 0 || j >= g.out(p.last()).len() {
        Seq::empty()
    } else {
        let nx = edge_target(g, p.last(), j);
        let here = if !(0 <= nx < g.n()) || !in_scc(g, nx, c) || !first_to(g, p.last(), j) {
            Seq::empty()
        } else if nx == start && p.len() > 1 {
            seq![p.map_values(|x: int| x as usize)]
        } else if nx > start && !p.contains(nx) {
            dfs_cycles(g, start, c, k, p.push(nx), 0)
        } else {
            Seq::empty()
        };
        here + dfs_cycles(g, start, c, k, p, j + 1)
    }
}

/// The cycles reported from start node `s`.
pub open spec fn cycles_from(g: SherlockGraph, k: int, s: int) -> Seq<Seq<usize>> {
    match g.nodes@[s].scc_id {
        Some(c) => dfs_cycles(g, s, c, k, seq![s], 0),
        None => Seq::empty(),
    }
}

/// The cycles reported from the start nodes `0..m`, in order.
pub open spec fn cycles_upto(g: SherlockGraph, k: int, m: int) -> Seq<Seq<usize>>
    decreases m,
{
    if m <= 0 {
        Seq::empty()
    } else {
        cycles_upto(g, k, m - 1) + cycles_from(g, k, m - 1)
    }
}

/// Enumerates the simple cycles of at most `k` nodes that run through nodes of one
/// labelled component, each once: as its node sequence starting at its smallest node.
pub fn find_cycles_within_sccs(graph: &SherlockGraph, k: usize) -> (all: Vec<Vec<usize>>)
    requires
        graph.adj_wf(),
    ensures
        all.deep_view() == cycles_upto(*graph, k as int, graph.n() as int),
{
    let mut all_cycles: Vec<Vec<usize>> = Vec::new();
    let n = graph.nodes.len();
    let mut start_node: usize = 0;
    while start_node < n
        invariant
            n == graph.n(),
            graph.adj_wf(),
            0 <= start_node <= n,
            all_cycles.deep_view() == cycles_upto(*graph, k as int, start_node as int),
        decreases n - start_node,
    {
        let ghost before = all_cycles.deep_view();
        match graph.nodes[start_node].scc_id {
            Some(scc_id) => {
                let mut path: Vec<usize> = Vec::new();
                path.push(start_node);
                let mut visited: Vec<bool> = vec![false; n];
                proof {
                    assert(path@.map_values(|x: usize| x as int) =~= seq![start_node as int]);
                    assert forall|x: int| 0 <= x < n implies #[trigger] visited@[x]
                        == path@.map_values(|y: usize| y as int).drop_last().contains(x) by {
                        assert(path@.map_values(|y: usize| y as int).drop_last() =~= Seq::<int>::empty());
                    }
                }
                dfs_cycle_find(graph, start_node, start_node, scc_id, k, &mut path, &mut visited, &mut all_cycles);
            },
            None => {},
        }
        proof {
            assert(all_cycles.deep_view() =~= before + cycles_from(*graph, k as int, start_node as int));
        }
        start_node += 1;
    }
    all_cycles
}

/// The path as a sequence of integers.
pub open spec fn ints(p: Seq<usize>) -> Seq<int> {
    p.map_values(|x: usize| x as int)
}

fn dfs_cycle_find(
    graph: &SherlockGraph,
    start_node: usize,
    current_node: usize,
    scc_id: usize,
    k: usize,
    path: &mut Vec<usize>,
    visited: &mut Vec<bool>,
    all_cycles: &mut Vec<Vec<usize>>,
)
    requires
        graph.adj_wf(),
        old(path)@.len() >= 1,
        old(path)@.last() == current_node,
        old(path)@[0] == start_node,
        current_node < graph.n(),
        forall|i: int| 0 <= i < old(path)@.len() ==> #[trigger] old(path)@[i] < graph.n(),
        old(visited)@.len() == graph.n(),
        forall|x: int| 0 <= x < graph.n() ==> #[trigger] old(visited)@[x]
            == ints(old(path)@).drop_last().contains(x),
        !ints(old(path)@).drop_last().contains(current_node as int),
    ensures
        final(path)@ == old(path)@,
        final(visited)@ == old(visited)@,
        final(all_cycles).deep_view() == old(all_cycles).deep_view()
            + dfs_cycles(*graph, start_node as int, scc_id, k as int, ints(old(path)@), 0),
    decreases k + 1 - old(path)@.len(),
{
    if path.len() > k {
        return;
    }
    let ghost g = *graph;
    let ghost path0 = path@;
    let ghost p = ints(path@);
    let ghost all0 = all_cycles.deep_view();
    visited.set(current_node, true);
    proof {
        assert forall|x: int| 0 <= x < graph.n() implies #[trigger] visited@[x] == p.contains(x) by {
            assert(p =~= p.drop_last().push(current_node as int));
            if x == current_node as int {
                assert(p[p.len() - 1] == x);
            } else {
                if p.contains(x) {
                    let i = choose|i: int| 0 <= i < p.len() && p[i] == x;
                    assert(p.drop_last()[i] == x);
                }
                if p.drop_last().contains(x) {
                    let i = choose|i: int| 0 <= i < p.len() - 1 && p.drop_last()[i] == x;
                    assert(p[i] == x);
                }
            }
        }
    }
    let mut j: usize = 0;
    let len = graph.adj_list[current_node].len();
    while j < len
        invariant
            g == *graph,
            graph.adj_wf(),
            len == graph.out(current_node as int).len(),
            0 <= j <= len,
            path@ == path0,
            path0 == old(path)@,
            p == ints(path0),
            p.len() >= 1 && p.len() <= k,
            path0.len() == p.len(),
            p.last() == current_node as int,
            p[0] == start_node as int,
            forall|i: int| 0 <= i < path0.len() ==> #[trigger] path0[i] < graph.n(),
            visited@.len() == graph.n(),
            forall|x: int| 0 <= x < graph.n() ==> #[trigger] visited@[x] == p.contains(x),
            all0 + dfs_cycles(g, start_node as int, scc_id, k as int, p, 0)
                == all_cycles.deep_view() + dfs_cycles(g, start_node as int, scc_id, k as int, p, j as int),
            current_node < graph.n(),
        decreases len - j,
    {
        let next = graph.adj_list[current_node][j].target_idx;
        let ghost nx = next as int;
        let ghost before = all_cycles.deep_view();
        let ghost here = if !(0 <= nx < g.n()) || !in_scc(g, nx, scc_id) || !first_to(g, current_node as int, j as int) {
            Seq::<Seq<usize>>::empty()
        } else if nx == start_node as int && p.len() > 1 {
            seq![p.map_values(|x: int| x as usize)]
        } else if nx > start_node as int && !p.contains(nx) {
            dfs_cycles(g, start_node as int, scc_id, k as int, p.push(nx), 0)
        } else {
            Seq::<Seq<usize>>::empty()
        };
        proof {
            assert(0 <= nx < g.n());
            assert(dfs_cycles(g, start_node as int, scc_id, k as int, p, j as int)
                == here + dfs_cycles(g, start_node as int, scc_id, k as int, p, j + 1));
        }
        let mut first = true;
        let mut i: usize = 0;
        while i < j
            invariant
                g == *graph,
                graph.adj_wf(),
                0 <= i <= j < len,
                len == graph.out(current_node as int).len(),
                current_node < graph.n(),
                next as int == edge_target(g, current_node as int, j as int),
                first == (forall|i2: int| 0 <= i2 < i ==> #[trigger] edge_target(g, current_node as int, i2) != next as int),
            decreases j - i,
        {
            let t = graph.adj_list[current_node][i].target_idx;
            let ghost i0 = i as int;
            proof {
                assert(t as int == edge_target(g, current_node as int, i0));
            }
            if t == next {
                first = false;
            }
            i += 1;
            proof {
                assert(first == (forall|i2: int| 0 <= i2 < i ==> #[trigger] edge_target(g, current_node as int, i2) != next as int)) by {
                    if !first {
                        if t != next {
                            let w = choose|i2: int| 0 <= i2 < i0 && #[trigger] edge_target(g, current_node as int, i2) == next as int;
                            assert(0 <= w < i);
                        }
                    }
                }
            }
        }
        if first && graph.nodes[next].scc_id == Some(scc_id) {
            if next == start_node && path.len() > 1 {
                let cyc = path.clone();
                proof {
                    assert(cyc@ =~= path0);
                    assert(cyc.deep_view() =~= p.map_values(|x: int| x as usize));
                }
                all_cycles.push(cyc);
                proof {
                    assert(all_cycles.deep_view() =~= before + here);
                }
            } else if next > start_node && !visited[next] {
                path.push(next);
                proof {
                    assert(ints(path@) =~= p.push(nx));
                    assert(ints(path@).drop_last() =~= p);
                    assert forall|i: int| 0 <= i < path@.len() implies #[trigger] path@[i] < graph.n() by {
                        if i < path0.len() {
                            assert(path@[i] == path0[i]);
                        }
                    }
                }
                dfs_cycle_find(graph, start_node, next, scc_id, k, path, visited, all_cycles);
                path.pop();
                proof {
                    assert(path@ =~= path0);
                    assert(all_cycles.deep_view() =~= before + here);
                }
            } else {
                proof {
                    assert(all_cycles.deep_view() =~= before + here);
                }
            }
        } else {
            proof {
                assert(all_cycles.deep_view() =~= before + here);
            }
        }
        proof {
            assert(before + (here + dfs_cycles(g, start_node as int, scc_id, k as int, p, j + 1))
                =~= (before + here) + dfs_cycles(g, start_node as int, scc_id, k as int, p, j + 1));
        }
        j += 1;
    }
    visited.set(current_node, false);
    proof {
        assert(all_cycles.deep_view() =~= all0 + dfs_cycles(g, start_node as int, scc_id, k as int, p, 0));
        assert forall|x: int| 0 <= x < graph.n() implies #[trigger] visited@[x] == old(visited)@[x] by {
            if x == current_node as int {
            } else {
                if p.contains(x) {
                    let i = choose|i: int| 0 <= i < p.len() && p[i] == x;
                    assert(i != p.len() - 1);
                    assert(p.drop_last()[i] == x);
                }
                if p.drop_last().contains(x) {
                    let i = choose|i: int| 0 <= i < p.len() - 1 && p.drop_last()[i] == x;
                    assert(p[i] == x);
                }
            }
        }
        assert(visited@ =~= old(visited)@);
    }
}

/// `q` is a simple cycle of between two and `k` nodes, written from its smallest node,
/// whose nodes all carry the label of its first node: consecutive nodes are joined by
/// edges and an edge leads from the last node back to the first.
pub open spec fn is_labelled_cycle(g: SherlockGraph, k: int, q: Seq<usize>) -> bool {
    &&& 2 <= q.len() <= k
    &&& forall|i: int| 1 <= i < q.len() ==> q[0] < #[trigger] q[i]
    &&& forall|i: int| 0 <= i < q.len() ==> (#[trigger] q[i]) < g.n()
    &&& forall|i: int, j: int| 0 <= i < j < q.len() ==> #[trigger] q[i] != #[trigger] q[j]
    &&& g.nodes@[q[0] as int].scc_id is Some
    &&& forall|i: int| 0 <= i < q.len() ==> #[trigger] g.nodes@[q[i] as int].scc_id == g.nodes@[q[0] as int].scc_id
    &&& forall|i: int| 0 <= i < q.len() - 1 ==> g.has_edge(#[trigger] q[i] as int, q[i + 1] as int)
    &&& g.has_edge(q.last() as int, q[0] as int)
}

/// `p` is a path that the search from `start` within component `c` may stand on.
pub open spec fn search_path(g: SherlockGraph, start: int, c: usize, k: int, p: Seq<int>) -> bool {
    &&& 1 <= p.len() <= k
    &&& p[0] == start
    &&& forall|i: int| 1 <= i < p.len() ==> start < #[trigger] p[i]
    &&& forall|i: int| 0 <= i < p.len() ==> 0 <= #[trigger] p[i] < g.n() && in_scc(g, p[i], c)
    &&& forall|i: int, j: int| 0 <= i < j < p.len() ==> #[trigger] p[i] != #[trigger] p[j]
    &&& forall|i: int| 0 <= i < p.len() - 1 ==> g.has_edge(#[trigger] p[i], p[i + 1])
}

proof fn lemma_closing_cycle(g: SherlockGraph, start: int, c: usize, k: int, p: Seq<int>, j: int)
    requires
        g.adj_wf(),
        search_path(g, start, c, k, p),
        0 <= j < g.out(p.last()).len(),
        edge_target(g, p.last(), j) == start,
        p.len() > 1,
    ensures
        is_labelled_cycle(g, k, p.map_values(|x: int| x as usize)),
{
    let q = p.map_values(|x: int| x as usize);
    assert forall|i: int| 0 <= i < q.len() implies (#[trigger] q[i]) as int == p[i] by {}
    assert(g.has_edge(p.last(), start));
    assert forall|i: int| 0 <= i < q.len() - 1 implies g.has_edge(#[trigger] q[i] as int, q[i + 1] as int) by {
        assert(q[i + 1] as int == p[i + 1]);
        assert(g.has_edge(p[i], p[i + 1]));
    }
    assert forall|i: int, j2: int| 0 <= i < j2 < q.len() implies #[trigger] q[i] != #[trigger] q[j2] by {
        assert(p[i] != p[j2]);
    }
    assert forall|i: int| 0 <= i < q.len() implies #[trigger] g.nodes@[q[i] as int].scc_id
        == g.nodes@[q[0] as int].scc_id by {
        assert(in_scc(g, p[i], c) && in_scc(g, p[0], c));
    }
    assert(q.last() as int == p.last());
    assert forall|i: int| 1 <= i < q.len() implies q[0] < #[trigger] q[i] by {
        assert(start < p[i]);
    }
}

proof fn lemma_extend_path(g: SherlockGraph, start: int, c: usize, k: int, p: Seq<int>, j: int)
    requires
        g.adj_wf(),
        search_path(g, start, c, k, p),
        0 <= j < g.out(p.last()).len(),
        in_scc(g, edge_target(g, p.last(), j), c),
        !p.contains(edge_target(g, p.last(), j)),
        edge_target(g, p.last(), j) > start,
        p.len() + 1 <= k,
    ensures
        search_path(g, start, c, k, p.push(edge_target(g, p.last(), j))),
{
    let nx = edge_target(g, p.last(), j);
    let p2 = p.push(nx);
    assert(g.has_edge(p.last(), nx));
    assert forall|i: int, j2: int| 0 <= i < j2 < p2.len() implies #[trigger] p2[i] != #[trigger] p2[j2] by {
        if j2 == p.len() {
            assert(p2[i] == p[i]);
            if p[i] == nx {
                assert(p.contains(nx));
            }
        }
    }
    assert forall|i: int| 0 <= i < p2.len() - 1 implies g.has_edge(#[trigger] p2[i], p2[i + 1]) by {
        if i < p.len() - 1 {
            assert(g.has_edge(p[i], p[i + 1]));
        }
    }
}

#[verifier::spinoff_prover]
proof fn lemma_dfs_sound(g: SherlockGraph, start: int, c: usize, k: int, p: Seq<int>, j: int)
    requires
        g.adj_wf(),
        search_path(g, start, c, k, p),
    ensures
        forall|i: int| 0 <= i < dfs_cycles(g, start, c, k, p, j).len() ==>
            is_labelled_cycle(g, k, #[trigger] dfs_cycles(g, start, c, k, p, j)[i]),
    decreases k + 1 - p.len(), g.out(p.last()).len() - j,
{
    if p.len() == 0 || p.len() > k || j < 0 || j >= g.out(p.last()).len() {
    } else {
        let nx = edge_target(g, p.last(), j);
        assert(0 <= nx < g.n());
        let rest = dfs_cycles(g, start, c, k, p, j + 1);
        lemma_dfs_sound(g, start, c, k, p, j + 1);
        let here = if !(0 <= nx < g.n()) || !in_scc(g, nx, c) || !first_to(g, p.last(), j) {
            Seq::<Seq<usize>>::empty()
        } else if nx == start && p.len() > 1 {
            seq![p.map_values(|x: int| x as usize)]
        } else if nx > start && !p.contains(nx) {
            dfs_cycles(g, start, c, k, p.push(nx), 0)
        } else {
            Seq::<Seq<usize>>::empty()
        };
        assert(dfs_cycles(g, start, c, k, p, j) == here + rest);
        if in_scc(g, nx, c) && nx == start && p.len() > 1 {
            lemma_closing_cycle(g, start, c, k, p, j);
        } else if in_scc(g, nx, c) && nx > start && !p.contains(nx) && p.len() + 1 <= k {
            lemma_extend_path(g, start, c, k, p, j);
            lemma_dfs_sound(g, start, c, k, p.push(nx), 0);
        }
        let all = here + rest;
        assert forall|i: int| 0 <= i < all.len() implies is_labelled_cycle(g, k, #[trigger] all[i]) by {
            if i < here.len() {
                assert(all[i] == here[i]);
            } else {
                assert(all[i] == rest[i - here.len()]);
            }
        }
    }
}

/// The first `m` nodes of `q`, as integers.
pub open spec fn prefix(q: Seq<usize>, m: int) -> Seq<int> {
    q.take(m).map_values(|x: usize| x as int)
}

/// The node that follows the first `m` nodes of the cycle `q` (the start, once all nodes are on the path).
pub open spec fn after_prefix(q: Seq<usize>, m: int) -> int {
    if m < q.len() { q[m] as int } else { q[0] as int }
}

proof fn lemma_seq_contains_concat(a: Seq<Seq<usize>>, b: Seq<Seq<usize>>, x: Seq<usize>)
    requires
        a.contains(x) || b.contains(x),
    ensures
        (a + b).contains(x),
{
    if a.contains(x) {
        let i = choose|i: int| 0 <= i < a.len() && a[i] == x;
        assert((a + b)[i] == x);
    } else {
        let i = choose|i: int| 0 <= i < b.len() && b[i] == x;
        assert((a + b)[a.len() + i] == x);
    }
}

#[verifier::spinoff_prover]
proof fn lemma_dfs_complete(g: SherlockGraph, k: int, q: Seq<usize>, m: int, j: int)
    requires
        g.adj_wf(),
        is_labelled_cycle(g, k, q),
        1 <= m <= q.len(),
        0 <= j,
        exists|jj: int| j <= jj < g.out(q[m - 1] as int).len() && #[trigger] edge_target(g, q[m - 1] as int, jj) == after_prefix(q, m),
        forall|jj: int| 0 <= jj < j ==> #[trigger] edge_target(g, q[m - 1] as int, jj) != after_prefix(q, m),
    ensures
        dfs_cycles(g, q[0] as int, g.nodes@[q[0] as int].scc_id->0, k, prefix(q, m), j).contains(q),
    decreases q.len() - m, g.out(q[m - 1] as int).len() - j,
{
    let s = q[0] as int;
    let c = g.nodes@[s].scc_id->0;
    let p = prefix(q, m);
    let u = q[m - 1] as int;
    assert(p.last() == u);
    assert(p.len() == m);
    let nx = edge_target(g, u, j);
    let rest = dfs_cycles(g, s, c, k, p, j + 1);
    let here = if !(0 <= nx < g.n()) || !in_scc(g, nx, c) || !first_to(g, u, j) {
        Seq::<Seq<usize>>::empty()
    } else if nx == s && p.len() > 1 {
        seq![p.map_values(|x: int| x as usize)]
    } else if nx > s && !p.contains(nx) {
        dfs_cycles(g, s, c, k, p.push(nx), 0)
    } else {
        Seq::<Seq<usize>>::empty()
    };
    assert(dfs_cycles(g, s, c, k, p, j) == here + rest);
    if nx == after_prefix(q, m) {
        assert(first_to(g, u, j));
        if m == q.len() {
            assert(nx == s);
            assert(in_scc(g, s, c));
            assert(p.map_values(|x: int| x as usize) =~= q);
            assert(here[0] == q);
            lemma_seq_contains_concat(here, rest, q);
        } else {
            assert(nx == q[m] as int);
            assert(nx > s);
            assert(g.nodes@[q[m] as int].scc_id == g.nodes@[s].scc_id);
            assert(nx != s) by {
                assert(q[0] != q[m]);
            }
            assert(!p.contains(nx)) by {
                if p.contains(nx) {
                    let i = choose|i: int| 0 <= i < p.len() && p[i] == nx;
                    assert(q[i] != q[m]);
                }
            }
            assert(p.push(nx) =~= prefix(q, m + 1));
            let jn = if m + 1 < q.len() { 0int } else { 0int };
            assert(g.has_edge(q[m] as int, after_prefix(q, m + 1))) by {
                if m + 1 < q.len() {
                    assert(g.has_edge(q[m] as int, q[m + 1] as int));
                } else {
                    assert(q.last() == q[m]);
                }
            }
            let jj = choose|jj: int| 0 <= jj < g.out(q[m] as int).len() && #[trigger] g.out(q[m] as int)[jj].target_idx == after_prefix(q, m + 1);
            assert(edge_target(g, q[m] as int, jj) == after_prefix(q, m + 1));
            lemma_dfs_complete(g, k, q, m + 1, 0);
            lemma_seq_contains_concat(here, rest, q);
        }
    } else {
        lemma_dfs_complete(g, k, q, m, j + 1);
        lemma_seq_contains_concat(here, rest, q);
    }
}

proof fn lemma_upto_sound(g: SherlockGraph, k: int, m: int)
    requires
        g.adj_wf(),
        0 <= m <= g.n(),
    ensures
        forall|i: int| 0 <= i < cycles_upto(g, k, m).len() ==> is_labelled_cycle(g, k, #[trigger] cycles_upto(g, k, m)[i]),
    decreases m,
{
    if m > 0 {
        lemma_upto_sound(g, k, m - 1);
        let a = cycles_upto(g, k, m - 1);
        let b = cycles_from(g, k, m - 1);
        let s = m - 1;
        if g.nodes@[s].scc_id is Some && k >= 1 {
            let c = g.nodes@[s].scc_id->0;
            assert(search_path(g, s, c, k, seq![s]));
            lemma_dfs_sound(g, s, c, k, seq![s], 0);
        }
        assert forall|i: int| 0 <= i < (a + b).len() implies is_labelled_cycle(g, k, #[trigger] (a + b)[i]) by {
            if i >= a.len() {
                assert((a + b)[i] == b[i - a.len()]);
            }
        }
    }
}

proof fn lemma_upto_contains(g: SherlockGraph, k: int, m: int, s: int, q: Seq<usize>)
    requires
        0 <= s < m,
        cycles_from(g, k, s).contains(q),
    ensures
        cycles_upto(g, k, m).contains(q),
    decreases m,
{
    if s < m - 1 {
        lemma_upto_contains(g, k, m - 1, s, q);
    }
    lemma_seq_contains_concat(cycles_upto(g, k, m - 1), cycles_from(g, k, m - 1), q);
}

/// Every cycle that `find_cycles_within_sccs` reports is a simple cycle of between two
/// and `k` nodes, all carrying the same component label, closed by an edge back to
/// its first node.
pub proof fn law_reported_cycles_are_simple(g: SherlockGraph, k: int)
    requires
        g.adj_wf(),
    ensures
        forall|i: int| 0 <= i < cycles_upto(g, k, g.n() as int).len()
            ==> is_labelled_cycle(g, k, #[trigger] cycles_upto(g, k, g.n() as int)[i]),
{
    lemma_upto_sound(g, k, g.n() as int);
}

/// Every simple cycle of between two and `k` nodes that stays within one labelled
/// component is reported, written from its smallest node.
pub proof fn law_simple_cycles_are_reported(g: SherlockGraph, k: int, q: Seq<usize>)
    requires
        g.adj_wf(),
        is_labelled_cycle(g, k, q),
    ensures
        cycles_upto(g, k, g.n() as int).contains(q),
{
    let s = q[0] as int;
    assert(g.has_edge(q[0] as int, q[1] as int));
    let jj = choose|jj: int| 0 <= jj < g.out(q[0] as int).len() && #[trigger] g.out(q[0] as int)[jj].target_idx == q[1] as int;
    assert(edge_target(g, q[1 - 1] as int, jj) == after_prefix(q, 1));
    lemma_dfs_complete(g, k, q, 1, 0);
    assert(prefix(q, 1) =~= seq![s]);
    lemma_upto_contains(g, k, g.n() as int, s, q);
}


/// `x` starts with the path `p`.
pub open spec fn extends(x: Seq<usize>, p: Seq<int>) -> bool {
    &&& x.len() >= p.len()
    &&& forall|i: int| 0 <= i < p.len() ==> #[trigger] x[i] as int == p[i]
}

/// What follows the path `p` in `x`: the next node, or `start` when `x` is `p` itself.
pub open spec fn next_after(x: Seq<usize>, p: Seq<int>, start: int) -> int {
    if x.len() > p.len() { x[p.len() as int] as int } else { start }
}

/// No element occurs twice.
pub open spec fn no_dup(s: Seq<Seq<usize>>) -> bool {
    forall|a: int, b: int| 0 <= a < b < s.len() ==> #[trigger] s[a] != #[trigger] s[b]
}

#[verifier::spinoff_prover]
proof fn lemma_dfs_shape(g: SherlockGraph, start: int, c: usize, k: int, p: Seq<int>, j: int)
    requires
        g.adj_wf(),
        search_path(g, start, c, k, p),
        0 <= j,
    ensures
        forall|i: int| 0 <= i < dfs_cycles(g, start, c, k, p, j).len() ==> {
            let x = #[trigger] dfs_cycles(g, start, c, k, p, j)[i];
            &&& extends(x, p)
            &&& exists|jj: int| j <= jj < g.out(p.last()).len() && first_to(g, p.last(), jj)
                    && #[trigger] edge_target(g, p.last(), jj) == next_after(x, p, start)
        },
    decreases k + 1 - p.len(), g.out(p.last()).len() - j,
{
    if p.len() == 0 || p.len() > k || j < 0 || j >= g.out(p.last()).len() {
    } else {
        let nx = edge_target(g, p.last(), j);
        assert(0 <= nx < g.n());
        let rest = dfs_cycles(g, start, c, k, p, j + 1);
        lemma_dfs_shape(g, start, c, k, p, j + 1);
        let here = if !(0 <= nx < g.n()) || !in_scc(g, nx, c) || !first_to(g, p.last(), j) {
            Seq::<Seq<usize>>::empty()
        } else if nx == start && p.len() > 1 {
            seq![p.map_values(|x: int| x as usize)]
        } else if nx > start && !p.contains(nx) {
            dfs_cycles(g, start, c, k, p.push(nx), 0)
        } else {
            Seq::<Seq<usize>>::empty()
        };
        assert(dfs_cycles(g, start, c, k, p, j) == here + rest);
        let ext = in_scc(g, nx, c) && first_to(g, p.last(), j) && !(nx == start && p.len() > 1)
            && nx > start && !p.contains(nx);
        if ext && p.len() + 1 <= k {
            lemma_extend_path(g, start, c, k, p, j);
            lemma_dfs_shape(g, start, c, k, p.push(nx), 0);
        }
        let all = here + rest;
        assert forall|i: int| 0 <= i < all.len() implies {
            let x = #[trigger] all[i];
            &&& extends(x, p)
            &&& exists|jj: int| j <= jj < g.out(p.last()).len() && first_to(g, p.last(), jj)
                    && #[trigger] edge_target(g, p.last(), jj) == next_after(x, p, start)
        } by {
            if i < here.len() {
                let x = all[i];
                assert(x == here[i]);
                if ext {
                    let p2 = p.push(nx);
                    assert(extends(x, p2));
                    assert(x[p.len() as int] as int == p2[p.len() as int]);
                    assert forall|i2: int| 0 <= i2 < p.len() implies #[trigger] x[i2] as int == p[i2] by {
                        assert(x[i2] as int == p2[i2]);
                    }
                    assert(next_after(x, p, start) == nx);
                } else {
                    assert(x == p.map_values(|y: int| y as usize));
                    assert forall|i2: int| 0 <= i2 < p.len() implies #[trigger] x[i2] as int == p[i2] by {
                        assert(0 <= p[i2] < g.n());
                    }
                    assert(next_after(x, p, start) == nx);
                }
                assert(edge_target(g, p.last(), j) == next_after(x, p, start));
            } else {
                assert(all[i] == rest[i - here.len()]);
            }
        }
    }
}

proof fn lemma_concat_no_dup(a: Seq<Seq<usize>>, b: Seq<Seq<usize>>)
    requires
        no_dup(a),
        no_dup(b),
        forall|i: int, j: int| 0 <= i < a.len() && 0 <= j < b.len() ==> #[trigger] a[i] != #[trigger] b[j],
    ensures
        no_dup(a + b),
{
    assert forall|x: int, y: int| 0 <= x < y < (a + b).len() implies #[trigger] (a + b)[x] != #[trigger] (a + b)[y] by {
        if y < a.len() {
            assert((a + b)[x] == a[x] && (a + b)[y] == a[y]);
        } else if x >= a.len() {
            assert((a + b)[x] == b[x - a.len()] && (a + b)[y] == b[y - a.len()]);
        } else {
            assert((a + b)[x] == a[x] && (a + b)[y] == b[y - a.len()]);
        }
    }
}

#[verifier::spinoff_prover]
proof fn lemma_dfs_no_dup(g: SherlockGraph, start: int, c: usize, k: int, p: Seq<int>, j: int)
    requires
        g.adj_wf(),
        search_path(g, start, c, k, p),
        0 <= j,
    ensures
        no_dup(dfs_cycles(g, start, c, k, p, j)),
    decreases k + 1 - p.len(), g.out(p.last()).len() - j,
{
    if p.len() == 0 || p.len() > k || j < 0 || j >= g.out(p.last()).len() {
    } else {
        let nx = edge_target(g, p.last(), j);
        assert(0 <= nx < g.n());
        let rest = dfs_cycles(g, start, c, k, p, j + 1);
        lemma_dfs_no_dup(g, start, c, k, p, j + 1);
        lemma_dfs_shape(g, start, c, k, p, j + 1);
        lemma_dfs_shape(g, start, c, k, p, j);
        let here = if !(0 <= nx < g.n()) || !in_scc(g, nx, c) || !first_to(g, p.last(), j) {
            Seq::<Seq<usize>>::empty()
        } else if nx == start && p.len() > 1 {
            seq![p.map_values(|x: int| x as usize)]
        } else if nx > start && !p.contains(nx) {
            dfs_cycles(g, start, c, k, p.push(nx), 0)
        } else {
            Seq::<Seq<usize>>::empty()
        };
        let all = here + rest;
        assert(dfs_cycles(g, start, c, k, p, j) == all);
        let ext = in_scc(g, nx, c) && first_to(g, p.last(), j) && !(nx == start && p.len() > 1)
            && nx > start && !p.contains(nx);
        if ext && p.len() + 1 <= k {
            lemma_extend_path(g, start, c, k, p, j);
            lemma_dfs_no_dup(g, start, c, k, p.push(nx), 0);
        }
        assert(no_dup(here));
        assert forall|a: int, b: int| 0 <= a < here.len() && 0 <= b < rest.len() implies #[trigger] here[a] != #[trigger] rest[b] by {
            let x = here[a];
            let y = rest[b];
            assert(all[a] == x);
            assert(all[here.len() + b] == y);
            let ja = choose|jj: int| j <= jj < g.out(p.last()).len() && first_to(g, p.last(), jj)
                && #[trigger] edge_target(g, p.last(), jj) == next_after(all[a], p, start);
            let jb = choose|jj: int| j + 1 <= jj < g.out(p.last()).len() && first_to(g, p.last(), jj)
                && #[trigger] edge_target(g, p.last(), jj) == next_after(rest[b], p, start);
            if ja < jb {
                assert(edge_target(g, p.last(), ja) != edge_target(g, p.last(), jb));
            } else if jb < ja {
                assert(edge_target(g, p.last(), jb) != edge_target(g, p.last(), ja));
            }
            if ja == jb {
                // every element of `here` comes from edge `j`
                assert(first_to(g, p.last(), j) && in_scc(g, nx, c));
                assert(next_after(x, p, start) == nx) by {
                    if ext {
                        lemma_extend_path(g, start, c, k, p, j);
                        lemma_dfs_shape(g, start, c, k, p.push(nx), 0);
                        let p2 = p.push(nx);
                        assert(extends(x, p2));
                        assert(x[p.len() as int] as int == p2[p.len() as int]);
                    }
                }
                assert(edge_target(g, p.last(), j) != edge_target(g, p.last(), jb));
            }
        }
        lemma_concat_no_dup(here, rest);
    }
}

proof fn lemma_upto_no_dup(g: SherlockGraph, k: int, m: int)
    requires
        g.adj_wf(),
        0 <= m <= g.n(),
    ensures
        no_dup(cycles_upto(g, k, m)),
        forall|i: int| 0 <= i < cycles_upto(g, k, m).len() ==>
            (#[trigger] cycles_upto(g, k, m)[i]).len() >= 1 && cycles_upto(g, k, m)[i][0] < m,
    decreases m,
{
    if m > 0 {
        lemma_upto_no_dup(g, k, m - 1);
        let a = cycles_upto(g, k, m - 1);
        let b = cycles_from(g, k, m - 1);
        let s = m - 1;
        if g.nodes@[s].scc_id is Some && k >= 1 {
            let c = g.nodes@[s].scc_id->0;
            assert(search_path(g, s, c, k, seq![s]));
            lemma_dfs_no_dup(g, s, c, k, seq![s], 0);
            lemma_dfs_shape(g, s, c, k, seq![s], 0);
            assert forall|i: int| 0 <= i < b.len() implies (#[trigger] b[i]).len() >= 1 && b[i][0] == s by {
                assert(extends(b[i], seq![s]));
                assert(b[i][0] as int == seq![s][0]);
            }
        } else if g.nodes@[s].scc_id is Some {
            assert(b =~= Seq::<Seq<usize>>::empty());
        }
        assert forall|i: int, j: int| 0 <= i < a.len() && 0 <= j < b.len() implies #[trigger] a[i] != #[trigger] b[j] by {
            assert(a[i][0] < s);
        }
        lemma_concat_no_dup(a, b);
        assert forall|i: int| 0 <= i < (a + b).len() implies (#[trigger] (a + b)[i]).len() >= 1 && (a + b)[i][0] < m by {
            if i < a.len() {
                assert((a + b)[i] == a[i]);
            } else {
                assert((a + b)[i] == b[i - a.len()]);
            }
        }
    }
}

/// `b` is `a` read from position `r` on, wrapping around.
pub open spec fn rotated_by(a: Seq<usize>, b: Seq<usize>, r: int) -> bool {
    forall|i: int| 0 <= i < a.len() ==> #[trigger] b[i] == a[(i + r) % (a.len() as int)]
}

/// `b` is `a` read from some position: the same cyclic sequence of nodes.
pub open spec fn is_rotation(a: Seq<usize>, b: Seq<usize>) -> bool {
    &&& a.len() == b.len()
    &&& exists|r: int| 0 <= r < a.len() && #[trigger] rotated_by(a, b, r)
}

proof fn lemma_rotation_of_min_start(a: Seq<usize>, b: Seq<usize>)
    requires
        is_rotation(a, b),
        a.len() >= 1,
        forall|i: int| 1 <= i < a.len() ==> a[0] < #[trigger] a[i],
        forall|i: int| 1 <= i < b.len() ==> b[0] < #[trigger] b[i],
    ensures
        a == b,
{
    let n = a.len() as int;
    let r = choose|r: int| 0 <= r < n && #[trigger] rotated_by(a, b, r);
    if r != 0 {
        let t = n - r;
        assert((0 + r) % n == r) by (nonlinear_arith) requires 0 < r < n;
        assert((t + r) % n == 0) by (nonlinear_arith) requires t + r == n, n > 0;
        assert(b[0] == a[r]);
        assert(b[t] == a[0]);
    }
    assert forall|i: int| 0 <= i < n implies #[trigger] b[i] == a[i] by {
        assert((i + 0) % n == i) by (nonlinear_arith) requires 0 <= i < n;
    }
    assert(a =~= b);
}

/// Each simple cycle is listed once: no two reported cycles are equal, and none is a
/// rotation of another (each is written from its smallest node).
pub proof fn law_cycles_listed_once(g: SherlockGraph, k: int)
    requires
        g.adj_wf(),
    ensures
        forall|a: int, b: int| 0 <= a < cycles_upto(g, k, g.n() as int).len()
            && 0 <= b < cycles_upto(g, k, g.n() as int).len() && a != b ==>
                #[trigger] cycles_upto(g, k, g.n() as int)[a] != #[trigger] cycles_upto(g, k, g.n() as int)[b]
                && !is_rotation(cycles_upto(g, k, g.n() as int)[a], cycles_upto(g, k, g.n() as int)[b]),
{
    let cs = cycles_upto(g, k, g.n() as int);
    lemma_upto_no_dup(g, k, g.n() as int);
    lemma_upto_sound(g, k, g.n() as int);
    assert forall|a: int, b: int| 0 <= a < cs.len() && 0 <= b < cs.len() && a != b implies
        #[trigger] cs[a] != #[trigger] cs[b] && !is_rotation(cs[a], cs[b]) by {
        if a < b {
            assert(cs[a] != cs[b]);
        } else {
            assert(cs[b] != cs[a]);
        }
        assert(is_labelled_cycle(g, k, cs[a]));
        assert(is_labelled_cycle(g, k, cs[b]));
        if is_rotation(cs[a], cs[b]) {
            lemma_rotation_of_min_start(cs[a], cs[b]);
        }
    }
}

/// The elements of `s` with at most `k` nodes, in order.
pub open spec fn at_most(s: Seq<Seq<usize>>, k: int) -> Seq<Seq<usize>>
    decreases s.len(),
{
    if s.len() == 0 {
        Seq::empty()
    } else {
        at_most(s.drop_last(), k) + (if s.last().len() <= k { seq![s.last()] } else { Seq::empty() })
    }
}

proof fn lemma_at_most_add(a: Seq<Seq<usize>>, b: Seq<Seq<usize>>, k: int)
    ensures
        at_most(a + b, k) == at_most(a, k) + at_most(b, k),
    decreases b.len(),
{
    if b.len() == 0 {
        assert(a + b =~= a);
        assert(at_most(a, k) + at_most(b, k) =~= at_most(a, k));
    } else {
        lemma_at_most_add(a, b.drop_last(), k);
        assert((a + b).drop_last() =~= a + b.drop_last());
        assert((a + b).last() == b.last());
        let t = if b.last().len() <= k { seq![b.last()] } else { Seq::<Seq<usize>>::empty() };
        assert(at_most(a, k) + at_most(b.drop_last(), k) + t =~= at_most(a, k) + (at_most(b.drop_last(), k) + t));
    }
}

proof fn lemma_at_most_none(s: Seq<Seq<usize>>, k: int)
    requires
        forall|i: int| 0 <= i < s.len() ==> (#[trigger] s[i]).len() > k,
    ensures
        at_most(s, k) == Seq::<Seq<usize>>::empty(),
    decreases s.len(),
{
    if s.len() > 0 {
        assert forall|i: int| 0 <= i < s.drop_last().len() implies (#[trigger] s.drop_last()[i]).len() > k by {
            assert(s.drop_last()[i] == s[i]);
        }
        lemma_at_most_none(s.drop_last(), k);
        assert(s.last() == s[s.len() - 1]);
        assert(at_most(s, k) =~= Seq::<Seq<usize>>::empty());
    }
}

#[verifier::spinoff_prover]
proof fn lemma_dfs_depth(g: SherlockGraph, start: int, c: usize, k: int, k2: int, p: Seq<int>, j: int)
    requires
        g.adj_wf(),
        k <= k2,
        p.len() >= 1,
        p.len() <= k2 ==> search_path(g, start, c, k2, p),
        0 <= j,
    ensures
        dfs_cycles(g, start, c, k, p, j) == at_most(dfs_cycles(g, start, c, k2, p, j), k),
    decreases k2 + 1 - p.len(), g.out(p.last()).len() - j,
{
    let big = dfs_cycles(g, start, c, k2, p, j);
    if p.len() > k2 || j >= g.out(p.last()).len() {
        assert(big =~= Seq::<Seq<usize>>::empty());
        assert(at_most(big, k) =~= Seq::<Seq<usize>>::empty());
    } else if p.len() > k {
        lemma_dfs_shape(g, start, c, k2, p, j);
        assert forall|i: int| 0 <= i < big.len() implies (#[trigger] big[i]).len() > k by {
            assert(extends(big[i], p));
        }
        lemma_at_most_none(big, k);
    } else {
        let nx = edge_target(g, p.last(), j);
        assert(0 <= nx < g.n());
        lemma_dfs_depth(g, start, c, k, k2, p, j + 1);
        let ext = in_scc(g, nx, c) && first_to(g, p.last(), j) && !(nx == start && p.len() > 1)
            && nx > start && !p.contains(nx);
        let here_k = if !(0 <= nx < g.n()) || !in_scc(g, nx, c) || !first_to(g, p.last(), j) {
            Seq::<Seq<usize>>::empty()
        } else if nx == start && p.len() > 1 {
            seq![p.map_values(|x: int| x as usize)]
        } else if nx > start && !p.contains(nx) {
            dfs_cycles(g, start, c, k, p.push(nx), 0)
        } else {
            Seq::<Seq<usize>>::empty()
        };
        let here_k2 = if !(0 <= nx < g.n()) || !in_scc(g, nx, c) || !first_to(g, p.last(), j) {
            Seq::<Seq<usize>>::empty()
        } else if nx == start && p.len() > 1 {
            seq![p.map_values(|x: int| x as usize)]
        } else if nx > start && !p.contains(nx) {
            dfs_cycles(g, start, c, k2, p.push(nx), 0)
        } else {
            Seq::<Seq<usize>>::empty()
        };
        assert(dfs_cycles(g, start, c, k, p, j) == here_k + dfs_cycles(g, start, c, k, p, j + 1));
        assert(big == here_k2 + dfs_cycles(g, start, c, k2, p, j + 1));
        lemma_at_most_add(here_k2, dfs_cycles(g, start, c, k2, p, j + 1), k);
        if ext {
            if p.len() + 1 <= k2 {
                lemma_extend_path(g, start, c, k2, p, j);
            }
            lemma_dfs_depth(g, start, c, k, k2, p.push(nx), 0);
        } else if in_scc(g, nx, c) && first_to(g, p.last(), j) && nx == start && p.len() > 1 {
            let x = p.map_values(|y: int| y as usize);
            assert(x.len() == p.len());
            assert(seq![x].drop_last() =~= Seq::<Seq<usize>>::empty());
            assert(seq![x].last() == x);
            assert(at_most(Seq::<Seq<usize>>::empty(), k) =~= Seq::<Seq<usize>>::empty());
            assert(at_most(seq![x], k) =~= seq![x]);
        } else {
            assert(at_most(here_k2, k) =~= Seq::<Seq<usize>>::empty());
        }
    }
}

proof fn lemma_upto_depth(g: SherlockGraph, k: int, k2: int, m: int)
    requires
        g.adj_wf(),
        k <= k2,
        0 <= m <= g.n(),
    ensures
        cycles_upto(g, k, m) == at_most(cycles_upto(g, k2, m), k),
    decreases m,
{
    if m == 0 {
        assert(at_most(cycles_upto(g, k2, m), k) =~= Seq::<Seq<usize>>::empty());
    } else {
        lemma_upto_depth(g, k, k2, m - 1);
        let s = m - 1;
        lemma_at_most_add(cycles_upto(g, k2, m - 1), cycles_from(g, k2, s), k);
        if g.nodes@[s].scc_id is Some {
            let c = g.nodes@[s].scc_id->0;
            if 1 <= k2 {
                assert(search_path(g, s, c, k2, seq![s]));
            }
            lemma_dfs_depth(g, s, c, k, k2, seq![s], 0);
        } else {
            assert(at_most(cycles_from(g, k2, s), k) =~= Seq::<Seq<usize>>::empty());
        }
    }
}

/// Raising the depth only adds longer cycles: the cycles found with depth `k` are, in
/// the same order, those of at most `k` nodes among the cycles found with any depth `k2 >= k`.
pub proof fn law_deeper_search_adds_longer_cycles(g: SherlockGraph, k: int, k2: int)
    requires
        g.adj_wf(),
        k <= k2,
    ensures
        cycles_upto(g, k, g.n() as int) == at_most(cycles_upto(g, k2, g.n() as int), k),
{
    lemma_upto_depth(g, k, k2, g.n() as int);
}

} // verus!
