use vstd::prelude::*;
use vstd::hash_map::StringHashMap;

verus! {

/// A participant of a transaction: the graph's node key.
#[derive(Debug, Clone, PartialEq, Eq, Hash)]
pub enum EntityType {
    Account(String),
}

impl EntityType {
    /// The account name of this entity.
    pub open spec fn name(&self) -> Seq<char> {
        match self {
            EntityType::Account(s) => s@,
        }
    }

    pub fn as_str(&self) -> (r: &str)
        ensures
            r@ == self.name(),
    {
        match self {
            EntityType::Account(s) => s.as_str(),
        }
    }
}

/// A node of the transaction graph.
///
/// The numeric features that the analysis carries as floating-point values are held
/// here by their IEEE-754 bit patterns (`0` is `+0.0`).
pub struct Node {
    pub entity: EntityType,
    pub page_rank_bits: u64,
    pub scc_id: Option<usize>,
    pub k_core: u32,
    pub cluster_coeff_bits: u64,
    pub entropy_bits: u64,
}

/// A directed transaction edge, stored in the adjacency list of its source node.
///
/// `amount_bits` and `burstiness_bits` are IEEE-754 bit patterns of `f64` values.
#[derive(Debug, Clone, Copy, PartialEq, Eq)]
pub struct TransactionEdge {
    pub target_idx: usize,
    pub amount_bits: u64,
    pub created_on: u64,
    pub burstiness_bits: u64,
}

/// The mathematical content of a node: its name and its features.
pub struct NodeView {
    pub name: Seq<char>,
    pub page_rank_bits: u64,
    pub scc_id: Option<usize>,
    pub k_core: u32,
    pub cluster_coeff_bits: u64,
    pub entropy_bits: u64,
}

impl View for Node {
    type V = NodeView;

    open spec fn view(&self) -> NodeView {
        NodeView {
            name: self.entity.name(),
            page_rank_bits: self.page_rank_bits,
            scc_id: self.scc_id,
            k_core: self.k_core,
            cluster_coeff_bits: self.cluster_coeff_bits,
            entropy_bits: self.entropy_bits,
        }
    }
}

/// The mathematical content of a graph: its nodes and, for each node, the edges leaving it.
pub struct GraphView {
    pub nodes: Seq<NodeView>,
    pub adj: Seq<Seq<TransactionEdge>>,
}

/// The transaction multigraph: nodes, one adjacency list per node, and the index of
/// each entity name.
pub struct SherlockGraph {
    pub nodes: Vec<Node>,
    pub adj_list: Vec<Vec<TransactionEdge>>,
    pub entity_map: StringHashMap<usize>,
}

impl View for SherlockGraph {
    type V = GraphView;

    open spec fn view(&self) -> GraphView {
        GraphView { nodes: self.nodes@.map_values(|nd: Node| nd@), adj: self.adj_list@.map_values(|a: Vec<TransactionEdge>| a@) }
    }
}

impl SherlockGraph {
    /// Number of nodes.
    pub open spec fn n(&self) -> nat {
        self.nodes@.len()
    }

    /// The edges leaving node `u`.
    pub open spec fn out(&self, u: int) -> Seq<TransactionEdge> {
        self.adj_list@[u]@
    }

    /// The adjacency is well formed: one adjacency list per node, and every edge points
    /// at a node.
    pub open spec fn adj_wf(&self) -> bool {
        &&& self.adj_list@.len() == self.nodes@.len()
        &&& self.nodes@.len() <= usize::MAX
        &&& forall|u: int, k: int| 0 <= u < self.n() && 0 <= k < self.out(u).len()
                ==> #[trigger] self.out(u)[k].target_idx < self.n()
    }

    /// Well-formedness: the adjacency is well formed, and `entity_map` maps each node's
    /// name to that node and nothing else.
    pub open spec fn wf(&self) -> bool {
        &&& self.adj_wf()
        &&& forall|i: int| 0 <= i < self.n() ==>
                #[trigger] self.entity_map@.contains_key(self.nodes@[i].entity.name())
                && self.entity_map@[self.nodes@[i].entity.name()] == i
        &&& forall|name: Seq<char>| #[trigger] self.entity_map@.contains_key(name) ==>
                self.entity_map@[name] < self.n()
                && self.nodes@[self.entity_map@[name] as int].entity.name() == name
    }

    /// There is an edge from `u` to `v`.
    pub open spec fn has_edge(&self, u: int, v: int) -> bool {
        0 <= u < self.adj_list@.len()
        && exists|k: int| 0 <= k < self.out(u).len() && #[trigger] self.out(u)[k].target_idx == v
    }

    /// `p` is a walk: a non-empty node sequence whose consecutive nodes are joined by edges.
    pub open spec fn is_walk(&self, p: Seq<int>) -> bool {
        &&& p.len() >= 1
        &&& forall|i: int| #![trigger p[i]] 0 <= i < p.len() - 1 ==> self.has_edge(p[i], p[i + 1])
    }

    /// `v` can be reached from `u` by a walk (of length zero when `u == v`).
    #[verifier::opaque]
    pub open spec fn reaches(&self, u: int, v: int) -> bool {
        exists|p: Seq<int>| #[trigger] self.is_walk(p) && p[0] == u && p[p.len() - 1] == v
    }

    pub fn new() -> (g: Self)
        ensures
            g.wf(),
            g.n() == 0,
            g@.nodes == Seq::<NodeView>::empty(),
            g@.adj == Seq::<Seq<TransactionEdge>>::empty(),
            g.entity_map@ == Map::<Seq<char>, usize>::empty(),
    {
        let g = SherlockGraph { nodes: Vec::new(), adj_list: Vec::new(), entity_map: StringHashMap::new() };
        assert(g@.adj =~= Seq::<Seq<TransactionEdge>>::empty());
        assert(g@.nodes =~= Seq::<NodeView>::empty());
        g
    }
}

} // verus!
