use vstd::prelude::*;
use std::collections::{HashMap, HashSet};
use crate::types::{GraphView, SherlockGraph, TransactionEdge};
use crate::graph::total_edges;

verus! {

broadcast use vstd::std_specs::hash::group_hash_axioms;

/// The number of the first `m` nodes that carry label `c`.
pub open spec fn label_count(v: GraphView, c: usize, m: int) -> nat
    decreases m,
{
    if m <= 0 {
        0
    } else {
        label_count(v, c, m - 1) + (if v.nodes[m - 1].scc_id == Some(c) { 1nat } else { 0nat })
    }
}

/// The labels carried by more than one node.
pub open spec fn shared_labels(v: GraphView) -> Set<usize> {
    Set::new(|c: usize| label_count(v, c, v.nodes.len() as int) > 1)
}

proof fn lemma_total_edges_prefix(adj: Seq<Seq<TransactionEdge>>, i: int)
    requires
        0 <= i < adj.len(),
    ensures
        total_edges(adj.take(i + 1)) == total_edges(adj.take(i)) + adj[i].len(),
{
    assert(adj.take(i + 1).drop_last() =~= adj.take(i));
}

proof fn lemma_label_count_bound(v: GraphView, c: usize, m: int)
    requires
        0 <= m <= v.nodes.len(),
    ensures
        label_count(v, c, m) <= m,
    decreases m,
{
    if m > 0 {
        lemma_label_count_bound(v, c, m - 1);
    }
}

proof fn lemma_label_count_mono(v: GraphView, c: usize, a: int, b: int)
    requires
        0 <= a <= b <= v.nodes.len(),
    ensures
        label_count(v, c, a) <= label_count(v, c, b),
    decreases b - a,
{
    if a < b {
        lemma_label_count_mono(v, c, a, b - 1);
    }
}

proof fn lemma_label_count_positive(v: GraphView, c: usize, m: int)
    requires
        0 <= m <= v.nodes.len(),
        label_count(v, c, m) > 0,
    ensures
        exists|u: int| 0 <= u < m && #[trigger] v.nodes[u].scc_id == Some(c),
    decreases m,
{
    if v.nodes[m - 1].scc_id != Some(c) {
        lemma_label_count_positive(v, c, m - 1);
    }
}

/// The number of edges of the graph.
pub fn edge_count(graph: &SherlockGraph) -> (r: usize)
    requires
        graph.adj_wf(),
        total_edges(graph@.adj) <= usize::MAX,
    ensures
        r == total_edges(graph@.adj),
{
    let mut sum: usize = 0;
    let mut i: usize = 0;
    while i < graph.adj_list.len()
        invariant
            graph.adj_wf(),
            total_edges(graph@.adj) <= usize::MAX,
            0 <= i <= graph.adj_list.len(),
            sum == total_edges(graph@.adj.take(i as int)),
        decreases graph.adj_list.len() - i,
    {
        proof {
            lemma_total_edges_prefix(graph@.adj, i as int);
            lemma_total_edges_prefix_bound(graph@.adj, i as int + 1);
            assert(graph@.adj[i as int] == graph.adj_list@[i as int]@);
        }
        sum = sum + graph.adj_list[i].len();
        i += 1;
    }
    proof {
        assert(graph@.adj.take(i as int) =~= graph@.adj);
    }
    sum
}

proof fn lemma_total_edges_prefix_bound(adj: Seq<Seq<TransactionEdge>>, i: int)
    requires
        0 <= i <= adj.len(),
    ensures
        total_edges(adj.take(i)) <= total_edges(adj),
    decreases adj.len() - i,
{
    if i < adj.len() {
        lemma_total_edges_prefix_bound(adj, i + 1);
        lemma_total_edges_prefix(adj, i);
    } else {
        assert(adj.take(i) =~= adj);
    }
}

/// The number of component labels that more than one node carries (the components
/// that can hold a cycle through two or more nodes).
pub fn non_trivial_scc_count(graph: &SherlockGraph) -> (r: usize)
    requires
        graph.adj_wf(),
    ensures
        r == shared_labels(graph@).len(),
        shared_labels(graph@).finite(),
{
    let ghost v = graph@;
    let n = graph.nodes.len();
    let mut freq: HashMap<usize, usize> = HashMap::new();
    let mut i: usize = 0;
    while i < n
        invariant
            v == graph@,
            n == v.nodes.len(),
            0 <= i <= n,
            forall|c: usize| #[trigger] freq@.contains_key(c) <==> label_count(v, c, i as int) > 0,
            forall|c: usize| #[trigger] freq@.contains_key(c) ==> freq@[c] == label_count(v, c, i as int),
        decreases n - i,
    {
        proof {
            assert(v.nodes[i as int] == graph.nodes@[i as int]@);
        }
        match graph.nodes[i].scc_id {
            Some(c) => {
                let k: usize = match freq.get(&c) {
                    Some(x) => *x,
                    None => 0,
                };
                proof {
                    lemma_label_count_bound(v, c, i as int);
                }
                freq.insert(c, k + 1);
            },
            None => {},
        }
        i += 1;
    }
    let mut counted: HashSet<usize> = HashSet::new();
    let mut count: usize = 0;
    let mut j: usize = 0;
    while j < n
        invariant
            v == graph@,
            n == v.nodes.len(),
            0 <= j <= n,
            forall|c: usize| #[trigger] freq@.contains_key(c) <==> label_count(v, c, n as int) > 0,
            forall|c: usize| #[trigger] freq@.contains_key(c) ==> freq@[c] == label_count(v, c, n as int),
            counted@.finite(),
            count == counted@.len(),
            count <= j,
            forall|c: usize| #[trigger] counted@.contains(c) <==>
                (label_count(v, c, n as int) > 1 && exists|u: int| 0 <= u < j && #[trigger] v.nodes[u].scc_id == Some(c)),
        decreases n - j,
    {
        proof {
            assert(v.nodes[j as int] == graph.nodes@[j as int]@);
        }
        let ghost before = counted@;
        match graph.nodes[j].scc_id {
            Some(c) => {
                proof {
                    lemma_label_count_mono(v, c, j as int + 1, n as int);
                    assert(label_count(v, c, j as int + 1) > 0);
                }
                let k = match freq.get(&c) {
                    Some(x) => *x,
                    None => 0,
                };
                if k > 1 && !counted.contains(&c) {
                    counted.insert(c);
                    count += 1;
                }
                proof {
                    assert forall|d: usize| #[trigger] counted@.contains(d) <==>
                        (label_count(v, d, n as int) > 1 && exists|u: int| 0 <= u < j + 1 && #[trigger] v.nodes[u].scc_id == Some(d)) by {
                        if label_count(v, d, n as int) > 1 && exists|u: int| 0 <= u < j + 1 && #[trigger] v.nodes[u].scc_id == Some(d) {
                            let u = choose|u: int| 0 <= u < j + 1 && #[trigger] v.nodes[u].scc_id == Some(d);
                            if u < j {
                                assert(before.contains(d));
                            }
                        }
                    }
                }
            },
            None => {
                proof {
                    assert forall|d: usize| #[trigger] counted@.contains(d) <==>
                        (label_count(v, d, n as int) > 1 && exists|u: int| 0 <= u < j + 1 && #[trigger] v.nodes[u].scc_id == Some(d)) by {
                        if label_count(v, d, n as int) > 1 && exists|u: int| 0 <= u < j + 1 && #[trigger] v.nodes[u].scc_id == Some(d) {
                            let u = choose|u: int| 0 <= u < j + 1 && #[trigger] v.nodes[u].scc_id == Some(d);
                            assert(u < j);
                        }
                    }
                }
            },
        }
        j += 1;
    }
    proof {
        assert forall|c: usize| #[trigger] counted@.contains(c) <==> shared_labels(v).contains(c) by {
            if label_count(v, c, n as int) > 1 {
                lemma_label_count_positive(v, c, n as int);
            }
        }
        assert(counted@ =~= shared_labels(v));
    }
    count
}

} // verus!
