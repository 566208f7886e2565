use vstd::prelude::*;
use crate::types::SherlockGraph;
use crate::algorithms::{TarjanScc, is_scc_labelling, same_but_scc, search_after, search_done, assigned};
use crate::cycles::{cycles_upto, find_cycles_within_sccs};

verus! {

/// Paths to each CSV source. `None` skips that source.
pub struct DataPaths<'a> {
    pub wallet_history: Option<&'a str>,
    pub qr_transactions: Option<&'a str>,
    pub service_payments: Option<&'a str>,
    pub remittance: Option<&'a str>,
    pub disbursements: Option<&'a str>,
}

/// The analysis that follows ingestion: labels every node with its strongly connected
/// component, then enumerates the simple cycles of at most `cycle_depth` nodes that stay
/// inside one component. Returns the component count and the cycles.
pub fn analyse(graph: &mut SherlockGraph, cycle_depth: usize) -> (r: (usize, Vec<Vec<usize>>))
    requires
        old(graph).adj_wf(),
        old(graph).n() < i64::MAX,
    ensures
        final(graph).adj_wf(),
        old(graph).wf() ==> final(graph).wf(),
        final(graph).adj_list@ == old(graph).adj_list@,
        final(graph).entity_map@ == old(graph).entity_map@,
        final(graph).n() == old(graph).n(),
        forall|v: int| 0 <= v < old(graph).n() ==>
            same_but_scc(#[trigger] final(graph).nodes@[v], old(graph).nodes@[v]),
        r.0 <= final(graph).n(),
        is_scc_labelling(*final(graph), r.0 as int),
        exists|t: nat| #[trigger] search_done(*old(graph), search_after(*old(graph), t))
            && final(graph).nodes@ == search_after(*old(graph), t).1.nodes
            && r.0 == search_after(*old(graph), t).1.scc
            && forall|v: int| 0 <= v < old(graph).n() ==> #[trigger] assigned(search_after(*old(graph), t).1, v),
        r.1.deep_view() == cycles_upto(*final(graph), cycle_depth as int, final(graph).n() as int),
{
    let scc_count = TarjanScc::compute(graph);
    let cycles = find_cycles_within_sccs(graph, cycle_depth);
    (scc_count, cycles)
}

} // verus!
