use vstd::prelude::*;
use crate::types::{EntityType, GraphView, Node, NodeView, SherlockGraph, TransactionEdge};

verus! {

/// Some node is named `name`.
pub open spec fn has_name(v: GraphView, name: Seq<char>) -> bool {
    exists|i: int| 0 <= i < v.nodes.len() && #[trigger] v.nodes[i].name == name
}

/// The node named `name` (meaningful when `has_name`).
pub open spec fn index_of(v: GraphView, name: Seq<char>) -> int {
    choose|i: int| 0 <= i < v.nodes.len() && #[trigger] v.nodes[i].name == name
}

/// No two nodes share a name, and there is one adjacency list per node.
pub open spec fn view_wf(v: GraphView) -> bool {
    &&& v.adj.len() == v.nodes.len()
    &&& forall|a: int, b: int| 0 <= a < v.nodes.len() && 0 <= b < v.nodes.len()
            && #[trigger] v.nodes[a].name == #[trigger] v.nodes[b].name ==> a == b
}

/// A node named `name` with no component label and all features zero.
pub open spec fn fresh_node(name: Seq<char>) -> NodeView {
    NodeView { name, page_rank_bits: 0, scc_id: None, k_core: 0, cluster_coeff_bits: 0, entropy_bits: 0 }
}

/// The graph after looking up, or adding, the node named `name`, and that node's index.
pub open spec fn spec_add_node(v: GraphView, name: Seq<char>) -> (GraphView, int) {
    if has_name(v, name) {
        (v, index_of(v, name))
    } else {
        (GraphView { nodes: v.nodes.push(fresh_node(name)), adj: v.adj.push(Seq::empty()) }, v.nodes.len() as int)
    }
}

/// The edge that a transaction to node `t` stores.
pub open spec fn transaction_edge(t: int, amount_bits: u64, timestamp: u64) -> TransactionEdge {
    TransactionEdge { target_idx: t as usize, amount_bits, created_on: timestamp, burstiness_bits: 0 }
}

/// The graph after recording a transaction from `s` to `t`: both nodes are looked up or
/// added (source first), and the edge is appended to the source's adjacency list.
pub open spec fn spec_add_transaction(v: GraphView, s: Seq<char>, t: Seq<char>, amount_bits: u64, timestamp: u64) -> GraphView {
    let (v1, si) = spec_add_node(v, s);
    let (v2, ti) = spec_add_node(v1, t);
    GraphView { adj: v2.adj.update(si, v2.adj[si].push(transaction_edge(ti, amount_bits, timestamp))), ..v2 }
}

/// Total number of edges.
pub open spec fn total_edges(adj: Seq<Seq<TransactionEdge>>) -> nat
    decreases adj.len(),
{
    if adj.len() == 0 {
        0
    } else {
        total_edges(adj.drop_last()) + adj.last().len()
    }
}

proof fn lemma_names_distinct(g: SherlockGraph)
    requires
        g.wf(),
    ensures
        view_wf(g@),
        forall|i: int| 0 <= i < g.n() ==> #[trigger] g@.nodes[i] == g.nodes@[i]@,
{
    assert forall|a: int, b: int| 0 <= a < g@.nodes.len() && 0 <= b < g@.nodes.len()
        && #[trigger] g@.nodes[a].name == #[trigger] g@.nodes[b].name implies a == b by {
        assert(g.entity_map@.contains_key(g.nodes@[a].entity.name()));
        assert(g.entity_map@.contains_key(g.nodes@[b].entity.name()));
    }
}

proof fn lemma_total_edges_push_empty(adj: Seq<Seq<TransactionEdge>>)
    ensures
        total_edges(adj.push(Seq::empty())) == total_edges(adj),
{
    assert(adj.push(Seq::empty()).drop_last() =~= adj);
}

proof fn lemma_total_edges_update(adj: Seq<Seq<TransactionEdge>>, i: int, e: TransactionEdge)
    requires
        0 <= i < adj.len(),
    ensures
        total_edges(adj.update(i, adj[i].push(e))) == total_edges(adj) + 1,
    decreases adj.len(),
{
    let a2 = adj.update(i, adj[i].push(e));
    if i == adj.len() - 1 {
        assert(a2.drop_last() =~= adj.drop_last());
    } else {
        lemma_total_edges_update(adj.drop_last(), i, e);
        assert(a2.drop_last() =~= adj.drop_last().update(i, adj.drop_last()[i].push(e)));
    }
}

/// Looking up a node is idempotent: adding the same entity a second time finds the
/// node that the first call found or created and leaves the graph as it was, and that
/// node carries the entity's name.
pub proof fn law_add_node_idempotent(v: GraphView, name: Seq<char>)
    requires
        view_wf(v),
    ensures
        spec_add_node(spec_add_node(v, name).0, name) == spec_add_node(v, name),
        view_wf(spec_add_node(v, name).0),
        spec_add_node(v, name).0.nodes[spec_add_node(v, name).1].name == name,
        0 <= spec_add_node(v, name).1 < spec_add_node(v, name).0.nodes.len(),
{
    let (v1, i) = spec_add_node(v, name);
    if has_name(v, name) {
        let c = index_of(v, name);
        assert(v.nodes[c].name == name);
    } else {
        assert(v1.nodes[i].name == name);
        assert(has_name(v1, name));
        let c = index_of(v1, name);
        assert(v1.nodes[c].name == name);
        if c != i {
            assert(v.nodes[c].name == name);
        }
        assert forall|a: int, b: int| 0 <= a < v1.nodes.len() && 0 <= b < v1.nodes.len()
            && #[trigger] v1.nodes[a].name == #[trigger] v1.nodes[b].name implies a == b by {
            if a < v.nodes.len() && b == i {
                assert(v.nodes[a].name == name);
            }
            if b < v.nodes.len() && a == i {
                assert(v.nodes[b].name == name);
            }
        }
    }
}

/// A transaction adds exactly one edge, at the end of the source node's adjacency list,
/// and adds a node for each of the two names that the graph did not know yet.
pub proof fn law_add_transaction_adds_one_edge(v: GraphView, s: Seq<char>, t: Seq<char>, amount_bits: u64, timestamp: u64)
    requires
        view_wf(v),
    ensures
        total_edges(spec_add_transaction(v, s, t, amount_bits, timestamp).adj) == total_edges(v.adj) + 1,
        spec_add_transaction(v, s, t, amount_bits, timestamp).nodes.len() == v.nodes.len()
            + (if has_name(v, s) { 0int } else { 1int })
            + (if has_name(v, t) || t == s { 0int } else { 1int }),
        ({
            let w = spec_add_transaction(v, s, t, amount_bits, timestamp);
            let si = spec_add_node(v, s).1;
            let ti = spec_add_node(spec_add_node(v, s).0, t).1;
            &&& w.nodes[si].name == s
            &&& w.nodes[ti].name == t
            &&& w.adj[si].last() == transaction_edge(ti, amount_bits, timestamp)
        }),
{
    let (v1, si) = spec_add_node(v, s);
    let (v2, ti) = spec_add_node(v1, t);
    law_add_node_idempotent(v, s);
    law_add_node_idempotent(v1, t);
    if !has_name(v, s) {
        lemma_total_edges_push_empty(v.adj);
    }
    if !has_name(v1, t) {
        lemma_total_edges_push_empty(v1.adj);
    }
    lemma_total_edges_update(v2.adj, si, transaction_edge(ti, amount_bits, timestamp));
    assert(has_name(v1, t) == (has_name(v, t) || t == s)) by {
        if has_name(v1, t) && !has_name(v, t) {
            let c = index_of(v1, t);
            assert(v1.nodes[c].name == t);
            if c < v.nodes.len() {
                assert(v.nodes[c] == v1.nodes[c]);
            }
        }
        if has_name(v, t) {
            let c = index_of(v, t);
            assert(v1.nodes[c].name == t);
        }
        if t == s {
            assert(v1.nodes[si].name == t);
        }
    }
    if !has_name(v1, t) {
        assert(v2.nodes[si] == v1.nodes[si]);
    }
}

impl SherlockGraph {
    /// Returns the index of the node for `entity`, adding a fresh node (with no edges
    /// and all features zero) when the name is new.
    pub fn add_node(&mut self, entity: EntityType) -> (idx: usize)
        requires
            old(self).wf(),
        ensures
            final(self).wf(),
            (final(self)@, idx as int) == spec_add_node(old(self)@, entity.name()),
            final(self).entity_map@ == old(self).entity_map@.insert(entity.name(), idx),
    {
        proof {
            lemma_names_distinct(*self);
        }
        let name = entity.as_str();
        match self.entity_map.get(name) {
            Some(i) => {
                proof {
                    let j = *i as int;
                    assert(self@.nodes[j].name == entity.name());
                    assert(has_name(self@, entity.name()));
                    let c = index_of(self@, entity.name());
                    assert(self@.nodes[c].name == entity.name());
                    assert(self.entity_map@.insert(entity.name(), *i) =~= self.entity_map@);
                }
                return *i;
            },
            None => {},
        }
        proof {
            if has_name(self@, entity.name()) {
                let c = index_of(self@, entity.name());
                assert(self@.nodes[c].name == entity.name());
                assert(self.entity_map@.contains_key(self.nodes@[c].entity.name()));
            }
        }
        let key = name.to_owned();
        let idx = self.nodes.len();
        let ghost g = *self;
        self.nodes.push(Node {
            entity,
            page_rank_bits: 0,
            scc_id: None,
            k_core: 0,
            cluster_coeff_bits: 0,
            entropy_bits: 0,
        });
        self.adj_list.push(Vec::new());
        self.entity_map.insert(key, idx);
        proof {
            assert forall|u: int, k: int| 0 <= u < self.n() && 0 <= k < self.out(u).len()
                implies #[trigger] self.out(u)[k].target_idx < self.n() by {
                if u < g.n() {
                    assert(self.out(u) == g.out(u));
                }
            }
            assert forall|i: int| 0 <= i < self.n() implies
                #[trigger] self.entity_map@.contains_key(self.nodes@[i].entity.name())
                && self.entity_map@[self.nodes@[i].entity.name()] == i by {
                if i < g.n() {
                    assert(g.entity_map@.contains_key(g.nodes@[i].entity.name()));
                }
            }
            assert(self.nodes@.len() == self.nodes.len());
            assert(self@.nodes =~= g@.nodes.push(fresh_node(entity.name())));
            assert(self@.adj =~= g@.adj.push(Seq::empty()));
        }
        idx
    }

    /// Records a transaction from `source` to `target`: both nodes are looked up or
    /// added, and an edge carrying the amount (as `f64` bits) and the timestamp is
    /// appended to the source's adjacency list.
    pub fn add_transaction(&mut self, source: EntityType, target: EntityType, amount_bits: u64, timestamp: u64)
        requires
            old(self).wf(),
        ensures
            final(self).wf(),
            final(self)@ == spec_add_transaction(old(self)@, source.name(), target.name(), amount_bits, timestamp),
            final(self).entity_map@ == old(self).entity_map@
                .insert(source.name(), spec_add_node(old(self)@, source.name()).1 as usize)
                .insert(target.name(), spec_add_node(spec_add_node(old(self)@, source.name()).0, target.name()).1 as usize),
    {
        let ghost sn = source.name();
        let ghost tn = target.name();
        let src_idx = self.add_node(source);
        proof {
            assert(self.entity_map@.contains_key(sn));
        }
        let ghost g1 = *self;
        let tgt_idx = self.add_node(target);
        let ghost g = *self;
        proof {
            assert(g@.nodes.len() == g.n() && g1@.nodes.len() == g1.n());
            assert(g.n() >= g1.n());
        }
        let edge = TransactionEdge { target_idx: tgt_idx, amount_bits, created_on: timestamp, burstiness_bits: 0 };
        self.adj_list[src_idx].push(edge);
        proof {
            assert forall|u: int, k: int| 0 <= u < self.n() && 0 <= k < self.out(u).len()
                implies #[trigger] self.out(u)[k].target_idx < self.n() by {
                if u != src_idx as int || k < g.out(u).len() {
                    assert(self.out(u)[k] == g.out(u)[k]);
                }
            }
            assert(self@.adj =~= g@.adj.update(src_idx as int, g@.adj[src_idx as int].push(edge)));
        }
    }
}

} // verus!
