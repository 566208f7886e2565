use sherlock_graph::algorithms::TarjanScc;
use sherlock_graph::cycles::find_cycles_within_sccs;
use sherlock_graph::pipeline::analyse;
use sherlock_graph::summary::{edge_count, non_trivial_scc_count};
use sherlock_graph::types::{EntityType, SherlockGraph};

fn acct(n: &str) -> EntityType {
    EntityType::Account(n.to_string())
}

fn graph_of(edges: &[(&str, &str)]) -> SherlockGraph {
    let mut g = SherlockGraph::new();
    for (a, b) in edges {
        g.add_transaction(acct(a), acct(b), 0, 0);
    }
    g
}

fn labels(g: &SherlockGraph) -> Vec<Option<usize>> {
    g.nodes.iter().map(|n| n.scc_id).collect()
}

#[test]
fn as_str_gives_the_name() {
    assert_eq!(acct("USR:1").as_str(), "USR:1");
}

#[test]
fn new_graph_is_empty() {
    let g = SherlockGraph::new();
    assert!(g.nodes.is_empty());
    assert!(g.adj_list.is_empty());
    assert_eq!(edge_count(&g), 0);
}

#[test]
fn add_node_twice_returns_same_index() {
    let mut g = SherlockGraph::new();
    let a = g.add_node(acct("a"));
    let b = g.add_node(acct("b"));
    let a2 = g.add_node(acct("a"));
    assert_eq!((a, b, a2), (0, 1, 0));
    assert_eq!(g.nodes.len(), 2);
    assert_eq!(g.adj_list.len(), 2);
    let n = &g.nodes[1];
    assert_eq!(n.entity, acct("b"));
    assert_eq!((n.page_rank_bits, n.scc_id, n.k_core, n.cluster_coeff_bits, n.entropy_bits), (0, None, 0, 0, 0));
}

#[test]
fn add_transaction_appends_one_edge() {
    let mut g = SherlockGraph::new();
    g.add_transaction(acct("a"), acct("b"), 5.5f64.to_bits(), 77);
    g.add_transaction(acct("a"), acct("b"), 1.0f64.to_bits(), 78);
    g.add_transaction(acct("b"), acct("b"), 2.0f64.to_bits(), 79);
    assert_eq!(g.nodes.len(), 2);
    assert_eq!(edge_count(&g), 3);
    assert_eq!(g.adj_list[0].len(), 2);
    let e = g.adj_list[0][0];
    assert_eq!((e.target_idx, f64::from_bits(e.amount_bits), e.created_on, e.burstiness_bits), (1, 5.5, 77, 0));
    assert_eq!(g.adj_list[0][1].created_on, 78);
    assert_eq!(g.adj_list[1][0].target_idx, 1);
}

#[test]
fn tarjan_on_triangle_gives_one_component() {
    let mut g = graph_of(&[("0", "1"), ("1", "2"), ("2", "0")]);
    assert_eq!(TarjanScc::compute(&mut g), 1);
    assert_eq!(labels(&g), vec![Some(0), Some(0), Some(0)]);
    assert_eq!(non_trivial_scc_count(&g), 1);
}

#[test]
fn tarjan_on_chain_numbers_in_closing_order() {
    let mut g = graph_of(&[("0", "1"), ("1", "2")]);
    assert_eq!(TarjanScc::compute(&mut g), 3);
    assert_eq!(labels(&g), vec![Some(2), Some(1), Some(0)]);
    assert_eq!(non_trivial_scc_count(&g), 0);
}

#[test]
fn tarjan_two_cycles_joined_by_one_edge() {
    // {a,b} -> {c,d}: the downstream component closes first.
    let mut g = graph_of(&[("a", "b"), ("b", "a"), ("b", "c"), ("c", "d"), ("d", "c"), ("e", "e")]);
    let count = TarjanScc::compute(&mut g);
    assert_eq!(count, 3);
    assert_eq!(labels(&g), vec![Some(1), Some(1), Some(0), Some(0), Some(2)]);
    assert_eq!(non_trivial_scc_count(&g), 2);
}

#[test]
fn tarjan_mutual_reachability_matches_labels() {
    let edges = [("0", "3"), ("3", "1"), ("1", "0"), ("1", "2"), ("2", "4"), ("4", "2"), ("5", "0")];
    let mut g = graph_of(&edges);
    let n = g.nodes.len();
    TarjanScc::compute(&mut g);
    // reachability by repeated relaxation
    let mut reach = vec![vec![false; n]; n];
    for i in 0..n {
        reach[i][i] = true;
    }
    for _ in 0..n {
        for u in 0..n {
            for e in &g.adj_list[u] {
                for w in 0..n {
                    if reach[e.target_idx][w] {
                        reach[u][w] = true;
                    }
                }
            }
        }
    }
    for u in 0..n {
        for v in 0..n {
            let same = g.nodes[u].scc_id == g.nodes[v].scc_id;
            assert_eq!(same, reach[u][v] && reach[v][u], "{u} {v}");
            if reach[u][v] {
                assert!(g.nodes[v].scc_id.unwrap() <= g.nodes[u].scc_id.unwrap());
            }
        }
    }
}

#[test]
fn tarjan_on_empty_graph() {
    let mut g = SherlockGraph::new();
    assert_eq!(TarjanScc::compute(&mut g), 0);
}

#[test]
fn cycles_of_triangle_listed_once_from_smallest_node() {
    let mut g = graph_of(&[("0", "1"), ("1", "2"), ("2", "0")]);
    TarjanScc::compute(&mut g);
    assert_eq!(find_cycles_within_sccs(&g, 3), vec![vec![0, 1, 2]]);
    assert!(find_cycles_within_sccs(&g, 2).is_empty());
}

#[test]
fn cycles_skip_self_loops_and_unlabelled_graphs() {
    let mut g = graph_of(&[("a", "a"), ("a", "b"), ("b", "a")]);
    assert!(find_cycles_within_sccs(&g, 5).is_empty());
    TarjanScc::compute(&mut g);
    assert_eq!(find_cycles_within_sccs(&g, 5), vec![vec![0, 1]]);
}

#[test]
fn cycles_ignore_parallel_edges() {
    let mut g = graph_of(&[("a", "b"), ("a", "b"), ("b", "a"), ("b", "a")]);
    TarjanScc::compute(&mut g);
    assert_eq!(find_cycles_within_sccs(&g, 2), vec![vec![0, 1]]);
}

#[test]
fn analyse_labels_and_enumerates() {
    let mut g = graph_of(&[("0", "1"), ("1", "0"), ("1", "2")]);
    let (count, cycles) = analyse(&mut g, 6);
    assert_eq!(count, 2);
    assert_eq!(labels(&g), vec![Some(1), Some(1), Some(0)]);
    assert_eq!(cycles, vec![vec![0, 1]]);
}

fn simple_cycles_brute(g: &SherlockGraph, k: usize) -> Vec<Vec<usize>> {
    // all node sequences of 2..=k distinct nodes of one label, starting at their
    // smallest node and closed by an edge, each once
    fn edge(g: &SherlockGraph, a: usize, b: usize) -> bool {
        g.adj_list[a].iter().any(|e| e.target_idx == b)
    }
    fn extend(g: &SherlockGraph, k: usize, path: &mut Vec<usize>, out: &mut Vec<Vec<usize>>) {
        let last = *path.last().unwrap();
        let label = g.nodes[path[0]].scc_id;
        if path.len() >= 2 && edge(g, last, path[0]) {
            out.push(path.clone());
        }
        if path.len() >= k {
            return;
        }
        for next in path[0] + 1..g.nodes.len() {
            if !path.contains(&next) && g.nodes[next].scc_id == label && edge(g, last, next) {
                path.push(next);
                extend(g, k, path, out);
                path.pop();
            }
        }
    }
    let mut out = Vec::new();
    for s in 0..g.nodes.len() {
        if g.nodes[s].scc_id.is_some() {
            extend(g, k, &mut vec![s], &mut out);
        }
    }
    out.sort();
    out
}

fn is_rotation(a: &[usize], b: &[usize]) -> bool {
    a.len() == b.len() && (0..a.len()).any(|r| (0..a.len()).all(|i| b[i] == a[(i + r) % a.len()]))
}

#[test]
fn cycles_are_exactly_the_simple_cycles_within_components() {
    let edges = [
        ("0", "1"), ("1", "2"), ("2", "0"), ("2", "3"), ("3", "0"), ("1", "0"),
        ("3", "4"), ("4", "5"), ("5", "4"), ("0", "0"),
    ];
    let mut g = graph_of(&edges);
    TarjanScc::compute(&mut g);
    for k in 0..7 {
        let mut found = find_cycles_within_sccs(&g, k);
        found.sort();
        assert_eq!(found, simple_cycles_brute(&g, k), "k = {k}");
    }
}

#[test]
fn no_cycle_is_listed_twice_or_as_a_rotation() {
    let edges = [
        ("0", "1"), ("1", "0"), ("1", "2"), ("2", "0"), ("2", "1"), ("0", "2"), ("1", "2"), ("0", "1"),
    ];
    let mut g = graph_of(&edges);
    TarjanScc::compute(&mut g);
    let cs = find_cycles_within_sccs(&g, 3);
    assert_eq!(cs, vec![vec![0, 1], vec![0, 1, 2], vec![0, 2], vec![0, 2, 1], vec![1, 2]]);
    for a in 0..cs.len() {
        for b in 0..cs.len() {
            if a != b {
                assert!(!is_rotation(&cs[a], &cs[b]));
            }
        }
    }
}

#[test]
fn deeper_search_only_adds_longer_cycles() {
    let edges = [("0", "1"), ("1", "2"), ("2", "0"), ("1", "0"), ("2", "3"), ("3", "1"), ("3", "0")];
    let mut g = graph_of(&edges);
    TarjanScc::compute(&mut g);
    let deep = find_cycles_within_sccs(&g, 6);
    for k in 0..6 {
        let short: Vec<Vec<usize>> = deep.iter().filter(|c| c.len() <= k).cloned().collect();
        assert_eq!(find_cycles_within_sccs(&g, k), short, "k = {k}");
    }
}

#[test]
fn second_labelling_gives_the_same_labels() {
    let mut g = graph_of(&[("a", "b"), ("b", "c"), ("c", "a"), ("c", "d"), ("e", "d"), ("d", "f"), ("f", "d")]);
    let c1 = TarjanScc::compute(&mut g);
    let l1 = labels(&g);
    let c2 = TarjanScc::compute(&mut g);
    assert_eq!((c1, labels(&g)), (c2, l1));
}

#[test]
fn labels_ignore_labels_already_present() {
    let mut g = graph_of(&[("a", "b"), ("b", "a"), ("b", "c")]);
    let mut h = graph_of(&[("a", "b"), ("b", "a"), ("b", "c")]);
    for (i, n) in h.nodes.iter_mut().enumerate() {
        n.scc_id = Some(100 + i);
    }
    assert_eq!(TarjanScc::compute(&mut g), TarjanScc::compute(&mut h));
    assert_eq!(labels(&g), labels(&h));
}
