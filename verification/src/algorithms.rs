use vstd::prelude::*;
use crate::types::{Node, SherlockGraph, TransactionEdge};
use crate::paths::{lemma_reaches_refl, lemma_reaches_step, lemma_reaches_edge, lemma_reaches_trans,
    lemma_reaches_closed, lemma_reaches_descending};

verus! {

/// Tarjan's strongly-connected-components algorithm.
pub struct TarjanScc;

/// One entry of the explicit depth-first call stack: a node and the index of the next
/// edge of it to explore.
pub struct Frame {
    pub u: usize,
    pub edge_cursor: usize,
}

/// `a` and `b` agree on everything but the component label.
pub open spec fn same_but_scc(a: Node, b: Node) -> bool {
    &&& a.entity == b.entity
    &&& a.page_rank_bits == b.page_rank_bits
    &&& a.k_core == b.k_core
    &&& a.cluster_coeff_bits == b.cluster_coeff_bits
    &&& a.entropy_bits == b.entropy_bits
}

/// The component label of node `v` (meaningful when it is `Some`).
pub open spec fn scc_of(g: SherlockGraph, v: int) -> int {
    g.nodes@[v].scc_id->0 as int
}

/// Some node carries label `c`.
pub open spec fn label_used(g: SherlockGraph, c: int) -> bool {
    exists|v: int| 0 <= v < g.n() && #[trigger] g.nodes@[v].scc_id == Some(c as usize)
}

/// The labelling that `TarjanScc::compute` produces: every node is labelled with a
/// component below `count`, every such component is used, and labels order the nodes
/// by reachability (`v` reachable from `u` never has a larger label than `u`), while
/// nodes with equal labels reach each other.
pub open spec fn is_scc_labelling(g: SherlockGraph, count: int) -> bool {
    &&& forall|v: int| 0 <= v < g.n() ==> (#[trigger] g.nodes@[v]).scc_id is Some
            && scc_of(g, v) < count
    &&& forall|c: int| 0 <= c < count ==> #[trigger] label_used(g, c)
    &&& forall|u: int, v: int| 0 <= u < g.n() && 0 <= v < g.n() && #[trigger] g.reaches(u, v)
            ==> scc_of(g, v) <= scc_of(g, u)
    &&& forall|u: int, v: int| #![trigger scc_of(g, u), scc_of(g, v)]
            0 <= u < g.n() && 0 <= v < g.n() && scc_of(g, u) == scc_of(g, v)
            ==> g.reaches(u, v)
}

// ---------------------------------------------------------------------------
// The proof state of the iterative algorithm
// ---------------------------------------------------------------------------

/// The executable state of the search (`ix`, `lo`, `os`, `st`, `cs`, counters, node
/// labels) together with ghost bookkeeping: `gpos` (position of a node in the call
/// stack, or -1), `spos` (position in the component stack), `lw` (a stacked node
/// whose index is at most the lowlink, reachable from the node), `gw` (a node of the
/// call stack reachable from a stacked node), `rep` (one node of each finished
/// component) and `vset` (the visited nodes).
pub struct TState {
    pub ix: Seq<i64>,
    pub lo: Seq<i64>,
    pub os: Seq<bool>,
    pub st: Seq<usize>,
    pub cs: Seq<Frame>,
    pub counter: int,
    pub scc: int,
    pub nodes: Seq<Node>,
    pub gpos: Seq<int>,
    pub spos: Seq<int>,
    pub lw: Seq<usize>,
    pub gw: Seq<usize>,
    pub rep: Seq<usize>,
    pub vset: Set<int>,
}

pub open spec fn tgt(g: SherlockGraph, v: int, k: int) -> int {
    g.out(v)[k].target_idx as int
}

pub open spec fn assigned(s: TState, v: int) -> bool {
    s.ix[v] >= 0 && !s.os[v]
}

pub open spec fn label(s: TState, v: int) -> int {
    s.nodes[v].scc_id->0 as int
}

pub open spec fn explored(g: SherlockGraph, s: TState, v: int) -> int {
    if s.gpos[v] >= 0 {
        s.cs[s.gpos[v]].edge_cursor as int
    } else if s.ix[v] >= 0 {
        g.out(v).len() as int
    } else {
        0
    }
}

pub open spec fn bound(s: TState, i: int) -> int {
    if i + 1 < s.cs.len() {
        s.ix[s.cs[i + 1].u as int] as int
    } else {
        s.counter
    }
}

pub open spec fn inv_len(g: SherlockGraph, s: TState) -> bool {
    let n = g.n();
    &&& s.ix.len() == n && s.lo.len() == n && s.os.len() == n && s.nodes.len() == n
    &&& s.gpos.len() == n && s.spos.len() == n && s.lw.len() == n && s.gw.len() == n
    &&& 0 <= s.counter <= n < i64::MAX && n <= usize::MAX
}

#[verifier::opaque]
pub open spec fn inv_basic(g: SherlockGraph, s: TState) -> bool {
    let n = g.n();
    &&& s.vset.finite() && s.vset.len() == s.counter
    &&& forall|v: int| #[trigger] s.vset.contains(v) <==> (0 <= v < n && s.ix[v] >= 0)
    &&& forall|v: int| 0 <= v < n ==> #[trigger] s.ix[v] == -1 || (0 <= s.ix[v] < s.counter)
    &&& forall|a: int, b: int| 0 <= a < n && 0 <= b < n && #[trigger] s.ix[a] >= 0
            && s.ix[a] == #[trigger] s.ix[b] ==> a == b
    &&& forall|v: int| 0 <= v < n ==> same_but_scc(#[trigger] s.nodes[v], g.nodes@[v])
}

#[verifier::opaque]
pub open spec fn inv_stack(g: SherlockGraph, s: TState) -> bool {
    let n = g.n();
    &&& forall|i: int| 0 <= i < s.st.len() ==> (#[trigger] s.st[i]) < n && s.os[s.st[i] as int]
            && s.spos[s.st[i] as int] == i
    &&& forall|i: int, j: int| 0 <= i < j < s.st.len()
            ==> s.ix[#[trigger] s.st[i] as int] < s.ix[#[trigger] s.st[j] as int]
    &&& forall|v: int| 0 <= v < n && #[trigger] s.os[v] ==> s.ix[v] >= 0 && 0 <= s.spos[v] < s.st.len()
            && s.st[s.spos[v]] == v
    &&& 0 <= s.scc && s.scc + s.st.len() <= s.counter
}

#[verifier::opaque]
pub open spec fn inv_frames(g: SherlockGraph, s: TState) -> bool {
    let n = g.n();
    &&& forall|i: int| 0 <= i < s.cs.len() ==> (#[trigger] s.cs[i]).u < n
            && s.cs[i].edge_cursor <= g.out(s.cs[i].u as int).len()
            && s.gpos[s.cs[i].u as int] == i && s.os[s.cs[i].u as int]
    &&& forall|i: int, j: int| 0 <= i < j < s.cs.len()
            ==> s.ix[(#[trigger] s.cs[i]).u as int] < s.ix[(#[trigger] s.cs[j]).u as int]
    &&& forall|v: int| 0 <= v < n && #[trigger] s.gpos[v] >= 0 ==> s.gpos[v] < s.cs.len()
            && s.cs[s.gpos[v]].u == v
    &&& forall|i: int| 0 <= i && i + 1 < s.cs.len() ==> (#[trigger] s.cs[i]).edge_cursor >= 1
            && tgt(g, s.cs[i].u as int, s.cs[i].edge_cursor - 1) == s.cs[i + 1].u
}

#[verifier::opaque]
pub open spec fn low_nb(g: SherlockGraph, s: TState) -> bool {
    // every explored edge leads to a visited node
    forall|v: int, k: int| 0 <= v < g.n() && 0 <= k < explored(g, s, v)
        ==> s.ix[#[trigger] tgt(g, v, k)] >= 0
}

#[verifier::opaque]
pub open spec fn low_g1(g: SherlockGraph, s: TState) -> bool {
    // explored edges of a frame node into the stack are reflected by its lowlink
    forall|i: int, k: int| 0 <= i < s.cs.len() && 0 <= k < (#[trigger] s.cs[i]).edge_cursor
        && s.os[#[trigger] tgt(g, s.cs[i].u as int, k)]
        ==> s.lo[s.cs[i].u as int] <= s.ix[tgt(g, s.cs[i].u as int, k)]
}

#[verifier::opaque]
pub open spec fn low_g2(g: SherlockGraph, s: TState) -> bool {
    // so are edges leaving its finished descendants
    forall|i: int, v: int, k: int| #![trigger s.cs[i], tgt(g, v, k)]
        0 <= i < s.cs.len() && 0 <= v < g.n() && 0 <= k < g.out(v).len()
        && s.ix[v] >= 0 && s.ix[s.cs[i].u as int] < s.ix[v] < bound(s, i)
        && s.os[tgt(g, v, k)]
        ==> s.lo[s.cs[i].u as int] <= s.ix[tgt(g, v, k)]
}

#[verifier::opaque]
pub open spec fn low_lw(g: SherlockGraph, s: TState) -> bool {
    // a stacked node reaches a stacked node whose index is at most its lowlink
    forall|v: int| 0 <= v < g.n() && #[trigger] s.os[v] ==> s.lo[v] <= s.ix[v]
        && s.lw[v] < g.n() && s.os[s.lw[v] as int] && s.ix[s.lw[v] as int] <= s.lo[v]
        && g.reaches(v, s.lw[v] as int)
}

#[verifier::opaque]
pub open spec fn low_gw(g: SherlockGraph, s: TState) -> bool {
    // a stacked node reaches an earlier node of the call stack
    forall|v: int| 0 <= v < g.n() && #[trigger] s.os[v] ==> s.gw[v] < g.n()
        && s.gpos[s.gw[v] as int] >= 0 && s.ix[s.gw[v] as int] <= s.ix[v]
        && g.reaches(v, s.gw[v] as int)
}

#[verifier::opaque]
pub open spec fn low_r1(g: SherlockGraph, s: TState) -> bool {
    // a frame node reaches every node visited after it
    forall|i: int, v: int| 0 <= i < s.cs.len() && 0 <= v < g.n() && s.ix[v] >= 0
        && s.ix[(#[trigger] s.cs[i]).u as int] <= #[trigger] s.ix[v]
        ==> g.reaches(s.cs[i].u as int, v)
}

pub open spec fn inv_low(g: SherlockGraph, s: TState) -> bool {
    &&& low_nb(g, s)
    &&& low_g1(g, s)
    &&& low_g2(g, s)
    &&& low_lw(g, s)
    &&& low_gw(g, s)
    &&& low_r1(g, s)
}

#[verifier::opaque]
pub open spec fn inv_done(g: SherlockGraph, s: TState) -> bool {
    let n = g.n();
    &&& forall|v: int| 0 <= v < n && #[trigger] assigned(s, v) ==> s.nodes[v].scc_id is Some
            && label(s, v) < s.scc
    &&& forall|a: int, k: int| 0 <= a < n && 0 <= k < g.out(a).len() && #[trigger] assigned(s, a)
            ==> assigned(s, #[trigger] tgt(g, a, k)) && label(s, tgt(g, a, k)) <= label(s, a)
    &&& forall|a: int, b: int| 0 <= a < n && 0 <= b < n && #[trigger] assigned(s, a)
            && #[trigger] assigned(s, b) && label(s, a) == label(s, b) ==> g.reaches(a, b)
    &&& s.rep.len() == s.scc
    &&& forall|c: int| 0 <= c < s.scc ==> (#[trigger] s.rep[c]) < n && assigned(s, s.rep[c] as int)
            && label(s, s.rep[c] as int) == c
}

pub open spec fn inv(g: SherlockGraph, s: TState) -> bool {
    &&& g.adj_wf()
    &&& inv_len(g, s)
    &&& inv_basic(g, s)
    &&& inv_stack(g, s)
    &&& inv_frames(g, s)
    &&& inv_low(g, s)
    &&& inv_done(g, s)
}

pub open spec fn advance(s: TState) -> TState {
    let t = s.cs.len() - 1;
    TState {
        cs: s.cs.update(t, Frame { u: s.cs[t].u, edge_cursor: (s.cs[t].edge_cursor + 1) as usize }),
        ..s
    }
}

pub open spec fn visit(s: TState, w: int) -> TState {
    TState {
        ix: s.ix.update(w, s.counter as i64),
        lo: s.lo.update(w, s.counter as i64),
        os: s.os.update(w, true),
        st: s.st.push(w as usize),
        cs: s.cs.push(Frame { u: w as usize, edge_cursor: 0 }),
        counter: s.counter + 1,
        gpos: s.gpos.update(w, s.cs.len() as int),
        spos: s.spos.update(w, s.st.len() as int),
        lw: s.lw.update(w, w as usize),
        gw: s.gw.update(w, w as usize),
        vset: s.vset.insert(w),
        ..s
    }
}

/// The top frame's next edge leads to `w`.
pub open spec fn next_target(g: SherlockGraph, s: TState, w: int) -> bool {
    &&& s.cs.len() > 0
    &&& s.cs.last().edge_cursor < g.out(s.cs.last().u as int).len()
    &&& s.cs.last().edge_cursor < usize::MAX
    &&& tgt(g, s.cs.last().u as int, s.cs.last().edge_cursor as int) == w
}

proof fn lemma_counter_room(g: SherlockGraph, s: TState, w: int)
    requires
        inv(g, s),
        0 <= w < g.n(),
        s.ix[w] == -1,
    ensures
        s.counter < g.n(),
{
    reveal(inv_basic);
    vstd::set_lib::lemma_int_range(0, g.n() as int);
    let r = vstd::set_lib::set_int_range(0, g.n() as int);
    assert(s.vset.insert(w).subset_of(r));
    vstd::set_lib::lemma_len_subset(s.vset.insert(w), r);
}

pub open spec fn pre_visit(s: TState) -> TState {
    if s.cs.len() == 0 { s } else { advance(s) }
}

#[verifier::spinoff_prover]
#[verifier::rlimit(50)]
proof fn lemma_visit_basic(g: SherlockGraph, s: TState, w: int)
    requires
        inv(g, s),
        0 <= w < g.n(),
        s.ix[w] == -1,
        s.cs.len() == 0 || next_target(g, s, w),
        s.counter < g.n(),
    ensures
        inv_basic(g, visit(pre_visit(s), w)),
{
    reveal(inv_basic);
    let a = pre_visit(s);
    let s2 = visit(a, w);
    let n = g.n();
    assert(a.os == s.os && a.ix == s.ix && a.st == s.st && a.gpos == s.gpos && a.spos == s.spos);
    assert(s2.os == s.os.update(w, true));
    assert(s2.st == s.st.push(w as usize));
    assert forall|v: int| #[trigger] s2.vset.contains(v) <==> (0 <= v < n && s2.ix[v] >= 0) by {
        if v != w {
            assert(s2.vset.contains(v) == s.vset.contains(v));
        }
    }
    assert forall|v: int| 0 <= v < n implies #[trigger] s2.ix[v] == -1 || (0 <= s2.ix[v] < s2.counter) by {
        if v != w {
            assert(s.ix[v] == -1 || (0 <= s.ix[v] < s.counter));
        }
    }
    assert forall|a: int, b: int| 0 <= a < n && 0 <= b < n && #[trigger] s2.ix[a] >= 0
            && s2.ix[a] == #[trigger] s2.ix[b] implies a == b by {
        if a != w {
            assert(s.ix[a] == -1 || (0 <= s.ix[a] < s.counter));
        }
        if b != w {
            assert(s.ix[b] == -1 || (0 <= s.ix[b] < s.counter));
        }
    }
    assert forall|v: int| 0 <= v < n implies same_but_scc(#[trigger] s2.nodes[v], g.nodes@[v]) by {
        assert(same_but_scc(s.nodes[v], g.nodes@[v]));
    }
}

#[verifier::spinoff_prover]
#[verifier::rlimit(50)]
proof fn lemma_visit_stack(g: SherlockGraph, s: TState, w: int)
    requires
        inv(g, s),
        0 <= w < g.n(),
        s.ix[w] == -1,
        s.cs.len() == 0 || next_target(g, s, w),
        s.counter < g.n(),
    ensures
        inv_stack(g, visit(pre_visit(s), w)),
{
    reveal(inv_stack);
    reveal(inv_basic);
    let a = pre_visit(s);
    let s2 = visit(a, w);
    let n = g.n();
    assert(a.os == s.os && a.ix == s.ix && a.st == s.st && a.gpos == s.gpos && a.spos == s.spos);
    assert(s2.os == s.os.update(w, true));
    assert(s2.st == s.st.push(w as usize));
    assert forall|i: int| 0 <= i < s2.st.len() implies (#[trigger] s2.st[i]) < n && s2.os[s2.st[i] as int]
            && s2.spos[s2.st[i] as int] == i by {
        if i < s.st.len() {
            assert(s.st[i] < n && s.os[s.st[i] as int] && s.spos[s.st[i] as int] == i);
            assert(s.st[i] != w);
        } else {
            assert(s2.st[i] == w as usize);
        }
    }
    assert forall|i: int, j: int| 0 <= i < j < s2.st.len()
            implies s2.ix[#[trigger] s2.st[i] as int] < s2.ix[#[trigger] s2.st[j] as int] by {
        assert(s.st[i] < n && s.os[s.st[i] as int]);
        assert(s.ix[s.st[i] as int] >= 0);
        assert(s.ix[s.st[i] as int] == -1 || (0 <= s.ix[s.st[i] as int] < s.counter));
        if j < s.st.len() {
            assert(s.st[j] < n && s.os[s.st[j] as int]);
            assert(s.ix[s.st[i] as int] < s.ix[s.st[j] as int]);
        }
    }
    assert forall|v: int| 0 <= v < n && #[trigger] s2.os[v] implies s2.ix[v] >= 0 && 0 <= s2.spos[v] < s2.st.len()
            && s2.st[s2.spos[v]] == v by {
        if v != w {
            assert(s.os[v]);
        }
    }
}

#[verifier::spinoff_prover]
#[verifier::rlimit(50)]
proof fn lemma_visit_frames(g: SherlockGraph, s: TState, w: int)
    requires
        inv(g, s),
        0 <= w < g.n(),
        s.ix[w] == -1,
        s.cs.len() == 0 || next_target(g, s, w),
        s.counter < g.n(),
    ensures
        inv_frames(g, visit(pre_visit(s), w)),
{
    reveal(inv_frames);
    reveal(inv_basic);
    reveal(inv_stack);
    let a = pre_visit(s);
    let s2 = visit(a, w);
    let n = g.n();
    assert(a.os == s.os && a.ix == s.ix && a.st == s.st && a.gpos == s.gpos && a.spos == s.spos);
    assert(s2.os == s.os.update(w, true));
    assert(s2.st == s.st.push(w as usize));
    assert forall|i: int| 0 <= i < s2.cs.len() implies (#[trigger] s2.cs[i]).u < n
            && s2.cs[i].edge_cursor <= g.out(s2.cs[i].u as int).len()
            && s2.gpos[s2.cs[i].u as int] == i && s2.os[s2.cs[i].u as int] by {
        if i < s.cs.len() {
            assert(s.cs[i].u < n && s.os[s.cs[i].u as int] && s.gpos[s.cs[i].u as int] == i);
            assert(s.cs[i].u != w);
            assert(s2.cs[i].u == s.cs[i].u);
            if i == s.cs.len() - 1 {
                assert(s.cs[i].edge_cursor < g.out(s.cs[i].u as int).len());
            }
        } else {
            assert(s2.cs[i].u == w as usize);
        }
    }
    assert forall|i: int, j: int| 0 <= i < j < s2.cs.len()
            implies s2.ix[(#[trigger] s2.cs[i]).u as int] < s2.ix[(#[trigger] s2.cs[j]).u as int] by {
        assert(s.cs[i].u < n && s.os[s.cs[i].u as int]);
        assert(s2.cs[i].u == s.cs[i].u);
        assert(s.ix[s.cs[i].u as int] == -1 || (0 <= s.ix[s.cs[i].u as int] < s.counter));
        if j < s.cs.len() {
            assert(s.cs[j].u < n && s.os[s.cs[j].u as int]);
            assert(s2.cs[j].u == s.cs[j].u);
            assert(s.ix[s.cs[i].u as int] < s.ix[s.cs[j].u as int]);
        }
    }
    assert forall|v: int| 0 <= v < n && #[trigger] s2.gpos[v] >= 0 implies s2.gpos[v] < s2.cs.len()
            && s2.cs[s2.gpos[v]].u == v by {
        if v != w {
            assert(s.gpos[v] < s.cs.len() && s.cs[s.gpos[v]].u == v);
            assert(s2.cs[s2.gpos[v]].u == s.cs[s.gpos[v]].u);
        }
    }
    assert forall|i: int| 0 <= i && i + 1 < s2.cs.len() implies (#[trigger] s2.cs[i]).edge_cursor >= 1
            && tgt(g, s2.cs[i].u as int, s2.cs[i].edge_cursor - 1) == s2.cs[i + 1].u by {
        if i + 1 < s.cs.len() {
            assert(s.cs[i].edge_cursor >= 1 && tgt(g, s.cs[i].u as int, s.cs[i].edge_cursor - 1) == s.cs[i + 1].u);
            assert(s2.cs[i] == s.cs[i]);
            assert(s2.cs[i + 1].u == s.cs[i + 1].u);
        } else {
            assert(i == s.cs.len() - 1);
            assert(s2.cs[i + 1].u == w as usize);
            assert(s.cs.last() == s.cs[i]);
            assert(s2.cs[i].u == s.cs[i].u);
            assert(s2.cs[i].edge_cursor == s.cs[i].edge_cursor + 1);
        }
    }
}

#[verifier::spinoff_prover]
#[verifier::rlimit(50)]
proof fn lemma_visit_nb(g: SherlockGraph, s: TState, w: int)
    requires
        inv(g, s),
        0 <= w < g.n(),
        s.ix[w] == -1,
        s.cs.len() == 0 || next_target(g, s, w),
        s.counter < g.n(),
    ensures
        low_nb(g, visit(pre_visit(s), w)),
{
    reveal(inv_basic);
    reveal(inv_frames);
    reveal(low_nb);
    let a = pre_visit(s);
    let s2 = visit(a, w);
    let n = g.n();
    let top = s.cs.len() - 1;
    assert(a.os == s.os && a.ix == s.ix && a.lo == s.lo && a.gpos == s.gpos && a.lw == s.lw && a.gw == s.gw);
    assert(a.cs.len() == s.cs.len());
    assert forall|i: int| 0 <= i < s.cs.len() implies (#[trigger] a.cs[i]).u == s.cs[i].u
        && a.cs[i].edge_cursor == (if i == top { s.cs[i].edge_cursor + 1 } else { s.cs[i].edge_cursor as int }) by {}
    assert forall|i: int| 0 <= i < s.cs.len() implies (#[trigger] s2.cs[i]) == a.cs[i] by {}
    assert(s2.cs[s.cs.len() as int].u == w as usize && s2.cs[s.cs.len() as int].edge_cursor == 0);
    // every explored edge leads to a visited node
    assert forall|v: int, k: int| 0 <= v < n && 0 <= k < explored(g, s2, v)
        implies s2.ix[#[trigger] tgt(g, v, k)] >= 0 by {
        if v != w {
            if s.gpos[v] >= 0 && s.gpos[v] == top && k == s.cs[top].edge_cursor {
                assert(s.cs[top].u == v);
                assert(tgt(g, v, k) == w);
            } else {
                assert(k < explored(g, s, v));
                assert(s.ix[tgt(g, v, k)] >= 0);
            }
        }
    }
}

#[verifier::spinoff_prover]
#[verifier::rlimit(100)]
proof fn lemma_visit_g1(g: SherlockGraph, s: TState, w: int)
    requires
        inv(g, s),
        0 <= w < g.n(),
        s.ix[w] == -1,
        s.cs.len() == 0 || next_target(g, s, w),
        s.counter < g.n(),
    ensures
        low_g1(g, visit(pre_visit(s), w)),
{
    reveal(inv_stack);
    reveal(inv_frames);
    reveal(low_nb);
    reveal(low_lw);
    reveal(low_g1);
    let a = pre_visit(s);
    let s2 = visit(a, w);
    let n = g.n();
    let top = s.cs.len() - 1;
    assert(a.os == s.os && a.ix == s.ix && a.lo == s.lo && a.gpos == s.gpos && a.lw == s.lw && a.gw == s.gw);
    assert(a.cs.len() == s.cs.len());
    assert forall|i: int| 0 <= i < s.cs.len() implies (#[trigger] a.cs[i]).u == s.cs[i].u
        && a.cs[i].edge_cursor == (if i == top { s.cs[i].edge_cursor + 1 } else { s.cs[i].edge_cursor as int }) by {}
    assert forall|i: int| 0 <= i < s.cs.len() implies (#[trigger] s2.cs[i]) == a.cs[i] by {}
    assert(s2.cs[s.cs.len() as int].u == w as usize && s2.cs[s.cs.len() as int].edge_cursor == 0);
    // frame lowlinks over explored edges
    assert forall|i: int, k: int| 0 <= i < s2.cs.len() && 0 <= k < (#[trigger] s2.cs[i]).edge_cursor
        && s2.os[#[trigger] tgt(g, s2.cs[i].u as int, k)]
        implies s2.lo[s2.cs[i].u as int] <= s2.ix[tgt(g, s2.cs[i].u as int, k)] by {
        let u = s.cs[i].u as int;
        assert(s.cs[i].u < n && s.os[u]);
        assert(u != w);
        if i == top && k == s.cs[top].edge_cursor {
            assert(tgt(g, u, k) == w);
            assert(s.lo[u] <= s.ix[u]);
            lemma_ix_range(g, s, u);
        } else {
            assert(k < explored(g, s, u));
            assert(s.ix[tgt(g, u, k)] >= 0);
            assert(tgt(g, u, k) != w);
            assert(s.os[tgt(g, u, k)]);
        }
    }
}

#[verifier::spinoff_prover]
#[verifier::rlimit(50)]
proof fn lemma_visit_g2(g: SherlockGraph, s: TState, w: int)
    requires
        inv(g, s),
        0 <= w < g.n(),
        s.ix[w] == -1,
        s.cs.len() == 0 || next_target(g, s, w),
        s.counter < g.n(),
    ensures
        low_g2(g, visit(pre_visit(s), w)),
{
    reveal(inv_basic);
    reveal(inv_stack);
    reveal(inv_frames);
    reveal(low_nb);
    reveal(low_g2);
    let a = pre_visit(s);
    let s2 = visit(a, w);
    let n = g.n();
    let top = s.cs.len() - 1;
    assert(a.os == s.os && a.ix == s.ix && a.lo == s.lo && a.gpos == s.gpos && a.lw == s.lw && a.gw == s.gw);
    assert(a.cs.len() == s.cs.len());
    assert forall|i: int| 0 <= i < s.cs.len() implies (#[trigger] a.cs[i]).u == s.cs[i].u
        && a.cs[i].edge_cursor == (if i == top { s.cs[i].edge_cursor + 1 } else { s.cs[i].edge_cursor as int }) by {}
    assert forall|i: int| 0 <= i < s.cs.len() implies (#[trigger] s2.cs[i]) == a.cs[i] by {}
    assert(s2.cs[s.cs.len() as int].u == w as usize && s2.cs[s.cs.len() as int].edge_cursor == 0);
    // finished descendants
    assert forall|i: int, v: int, k: int| #![trigger s2.cs[i], tgt(g, v, k)]
        0 <= i < s2.cs.len() && 0 <= v < n && 0 <= k < g.out(v).len()
        && s2.ix[v] >= 0 && s2.ix[s2.cs[i].u as int] < s2.ix[v] < bound(s2, i)
        && s2.os[tgt(g, v, k)]
        implies s2.lo[s2.cs[i].u as int] <= s2.ix[tgt(g, v, k)] by {
        if i == s.cs.len() {
            assert(bound(s2, i) == s.counter + 1);
        } else {
            let u = s.cs[i].u as int;
            assert(s.cs[i].u < n && s.os[u]);
            assert(s.ix[u] >= 0);
            assert(bound(s2, i) == bound(s, i)) by {
                if i + 1 < s.cs.len() {
                    assert(s2.cs[i + 1] == a.cs[i + 1]);
                    assert(s.cs[i + 1].u < n && s.os[s.cs[i + 1].u as int]);
                    assert(s.cs[i + 1].u != w);
                } else {
                    assert(s2.cs[i + 1].u == w as usize);
                }
            }
            assert(s.ix[v] == -1 || (0 <= s.ix[v] < s.counter));
            assert(v != w);
            assert(s.gpos[v] < 0) by {
                if s.gpos[v] >= 0 {
                    let j = s.gpos[v];
                    assert(s.cs[j].u == v);
                    if j < i {
                        assert(s.ix[s.cs[j].u as int] < s.ix[s.cs[i].u as int]);
                    } else if j > i {
                        if j == i + 1 {
                        } else {
                            assert(s.ix[s.cs[i + 1].u as int] < s.ix[s.cs[j].u as int]);
                        }
                    }
                }
            }
            assert(explored(g, s, v) == g.out(v).len());
            assert(s.ix[tgt(g, v, k)] >= 0);
            assert(tgt(g, v, k) != w);
        }
    }
}

#[verifier::spinoff_prover]
#[verifier::rlimit(50)]
proof fn lemma_visit_lw(g: SherlockGraph, s: TState, w: int)
    requires
        inv(g, s),
        0 <= w < g.n(),
        s.ix[w] == -1,
        s.cs.len() == 0 || next_target(g, s, w),
        s.counter < g.n(),
    ensures
        low_lw(g, visit(pre_visit(s), w)),
{
    reveal(inv_stack);
    reveal(low_lw);
    let a = pre_visit(s);
    let s2 = visit(a, w);
    let n = g.n();
    let top = s.cs.len() - 1;
    assert(a.os == s.os && a.ix == s.ix && a.lo == s.lo && a.gpos == s.gpos && a.lw == s.lw && a.gw == s.gw);
    assert(a.cs.len() == s.cs.len());
    assert forall|i: int| 0 <= i < s.cs.len() implies (#[trigger] a.cs[i]).u == s.cs[i].u
        && a.cs[i].edge_cursor == (if i == top { s.cs[i].edge_cursor + 1 } else { s.cs[i].edge_cursor as int }) by {}
    assert forall|i: int| 0 <= i < s.cs.len() implies (#[trigger] s2.cs[i]) == a.cs[i] by {}
    assert(s2.cs[s.cs.len() as int].u == w as usize && s2.cs[s.cs.len() as int].edge_cursor == 0);
    // lowlink witnesses
    assert forall|v: int| 0 <= v < n && #[trigger] s2.os[v] implies s2.lo[v] <= s2.ix[v]
        && s2.lw[v] < n && s2.os[s2.lw[v] as int] && s2.ix[s2.lw[v] as int] <= s2.lo[v]
        && g.reaches(v, s2.lw[v] as int) by {
        if v == w {
            lemma_reaches_refl(g, w);
        } else {
            assert(s.os[v]);
            assert(s.os[s.lw[v] as int]);
            assert(s.lw[v] != w);
        }
    }
}

#[verifier::spinoff_prover]
#[verifier::rlimit(50)]
proof fn lemma_visit_gw(g: SherlockGraph, s: TState, w: int)
    requires
        inv(g, s),
        0 <= w < g.n(),
        s.ix[w] == -1,
        s.cs.len() == 0 || next_target(g, s, w),
        s.counter < g.n(),
    ensures
        low_gw(g, visit(pre_visit(s), w)),
{
    reveal(inv_stack);
    reveal(inv_frames);
    reveal(low_gw);
    let a = pre_visit(s);
    let s2 = visit(a, w);
    let n = g.n();
    let top = s.cs.len() - 1;
    assert(a.os == s.os && a.ix == s.ix && a.lo == s.lo && a.gpos == s.gpos && a.lw == s.lw && a.gw == s.gw);
    assert(a.cs.len() == s.cs.len());
    assert forall|i: int| 0 <= i < s.cs.len() implies (#[trigger] a.cs[i]).u == s.cs[i].u
        && a.cs[i].edge_cursor == (if i == top { s.cs[i].edge_cursor + 1 } else { s.cs[i].edge_cursor as int }) by {}
    assert forall|i: int| 0 <= i < s.cs.len() implies (#[trigger] s2.cs[i]) == a.cs[i] by {}
    assert(s2.cs[s.cs.len() as int].u == w as usize && s2.cs[s.cs.len() as int].edge_cursor == 0);
    // call-stack witnesses
    assert forall|v: int| 0 <= v < n && #[trigger] s2.os[v] implies s2.gw[v] < n
        && s2.gpos[s2.gw[v] as int] >= 0 && s2.ix[s2.gw[v] as int] <= s2.ix[v]
        && g.reaches(v, s2.gw[v] as int) by {
        if v == w {
            lemma_reaches_refl(g, w);
        } else {
            assert(s.os[v]);
            let x = s.gw[v] as int;
            assert(s.gpos[x] >= 0);
            assert(s.cs[s.gpos[x]].u == x);
            assert(s.os[x]);
            assert(x != w);
        }
    }
}

#[verifier::spinoff_prover]
#[verifier::rlimit(50)]
proof fn lemma_visit_r1(g: SherlockGraph, s: TState, w: int)
    requires
        inv(g, s),
        0 <= w < g.n(),
        s.ix[w] == -1,
        s.cs.len() == 0 || next_target(g, s, w),
        s.counter < g.n(),
    ensures
        low_r1(g, visit(pre_visit(s), w)),
{
    reveal(inv_basic);
    reveal(inv_stack);
    reveal(inv_frames);
    reveal(low_r1);
    let a = pre_visit(s);
    let s2 = visit(a, w);
    let n = g.n();
    let top = s.cs.len() - 1;
    assert(a.os == s.os && a.ix == s.ix && a.lo == s.lo && a.gpos == s.gpos && a.lw == s.lw && a.gw == s.gw);
    assert(a.cs.len() == s.cs.len());
    assert forall|i: int| 0 <= i < s.cs.len() implies (#[trigger] a.cs[i]).u == s.cs[i].u
        && a.cs[i].edge_cursor == (if i == top { s.cs[i].edge_cursor + 1 } else { s.cs[i].edge_cursor as int }) by {}
    assert forall|i: int| 0 <= i < s.cs.len() implies (#[trigger] s2.cs[i]) == a.cs[i] by {}
    assert(s2.cs[s.cs.len() as int].u == w as usize && s2.cs[s.cs.len() as int].edge_cursor == 0);
    // frames reach later nodes
    assert forall|i: int, v: int| 0 <= i < s2.cs.len() && 0 <= v < n && s2.ix[v] >= 0
        && s2.ix[(#[trigger] s2.cs[i]).u as int] <= #[trigger] s2.ix[v]
        implies g.reaches(s2.cs[i].u as int, v) by {
        if i == s.cs.len() {
            assert(s2.cs[i].u == w as usize);
            if v != w {
                assert(s.ix[v] == -1 || (0 <= s.ix[v] < s.counter));
            }
            lemma_reaches_refl(g, w);
        } else {
            let u = s.cs[i].u as int;
            assert(s.cs[i].u < n && s.os[u]);
            if v == w {
                let t = s.cs[top].u as int;
                assert(s.cs[top].u < n && s.os[t]);
                if i < top {
                    assert(s.ix[s.cs[i].u as int] < s.ix[s.cs[top].u as int]);
                }
                assert(s.ix[t] >= 0);
                assert(g.reaches(u, t));
                assert(s.cs.last() == s.cs[top]);
                lemma_reaches_step(g, u, t, s.cs[top].edge_cursor as int);
            } else {
                assert(s.ix[u] >= 0);
            }
        }
    }
}

#[verifier::spinoff_prover]
#[verifier::rlimit(50)]
proof fn lemma_visit_low(g: SherlockGraph, s: TState, w: int)
    requires
        inv(g, s),
        0 <= w < g.n(),
        s.ix[w] == -1,
        s.cs.len() == 0 || next_target(g, s, w),
        s.counter < g.n(),
    ensures
        inv_low(g, visit(pre_visit(s), w)),
{
    lemma_visit_nb(g, s, w);
    lemma_visit_g1(g, s, w);
    lemma_visit_g2(g, s, w);
    lemma_visit_lw(g, s, w);
    lemma_visit_gw(g, s, w);
    lemma_visit_r1(g, s, w);
}

#[verifier::spinoff_prover]
#[verifier::rlimit(50)]
proof fn lemma_visit_done(g: SherlockGraph, s: TState, w: int)
    requires
        inv(g, s),
        0 <= w < g.n(),
        s.ix[w] == -1,
        s.cs.len() == 0 || next_target(g, s, w),
        s.counter < g.n(),
    ensures
        inv_done(g, visit(pre_visit(s), w)),
{
    reveal(inv_done);
    reveal(inv_basic);
    reveal(inv_stack);
    let a = pre_visit(s);
    let s2 = visit(a, w);
    let n = g.n();
    assert(a.os == s.os && a.ix == s.ix && a.nodes == s.nodes && a.rep == s.rep && a.scc == s.scc);
    assert forall|v: int| 0 <= v < n implies #[trigger] assigned(s2, v) == assigned(s, v) by {}
}

proof fn lemma_visit(g: SherlockGraph, s: TState, w: int)
    requires
        inv(g, s),
        0 <= w < g.n(),
        s.ix[w] == -1,
        s.cs.len() == 0 || next_target(g, s, w),
    ensures
        s.counter < g.n(),
        inv(g, visit(pre_visit(s), w)),
{
    lemma_counter_room(g, s, w);
    lemma_visit_basic(g, s, w);
    lemma_visit_stack(g, s, w);
    lemma_visit_frames(g, s, w);
    lemma_visit_low(g, s, w);
    lemma_visit_done(g, s, w);
}


/// The top frame explores an edge to the already visited node `w`.
pub open spec fn see(s: TState, w: int) -> TState {
    let a = advance(s);
    let u = s.cs.last().u as int;
    if s.os[w] && s.ix[w] < s.lo[u] {
        TState { lo: a.lo.update(u, s.ix[w]), lw: a.lw.update(u, w as usize), ..a }
    } else {
        a
    }
}

#[verifier::spinoff_prover]
#[verifier::rlimit(50)]
proof fn lemma_see_frame_facts(g: SherlockGraph, s: TState, w: int)
    requires
        inv(g, s),
        next_target(g, s, w),
    ensures
        see(s, w).cs.len() == s.cs.len(),
        forall|i: int| 0 <= i < s.cs.len() ==> (#[trigger] see(s, w).cs[i]).u == s.cs[i].u
            && see(s, w).cs[i].edge_cursor == (if i == s.cs.len() - 1 { s.cs[i].edge_cursor + 1 }
                else { s.cs[i].edge_cursor as int }),
        see(s, w).ix == s.ix && see(s, w).os == s.os && see(s, w).st == s.st && see(s, w).gpos == s.gpos
            && see(s, w).spos == s.spos && see(s, w).gw == s.gw && see(s, w).nodes == s.nodes
            && see(s, w).counter == s.counter && see(s, w).scc == s.scc && see(s, w).rep == s.rep
            && see(s, w).vset == s.vset,
        see(s, w).lo.len() == s.lo.len(),
        see(s, w).lw.len() == s.lw.len(),
{
    reveal(inv_frames);
    assert(s.cs.last() == s.cs[s.cs.len() - 1]);
    assert(s.cs[s.cs.len() - 1].u < g.n());
}

proof fn lemma_see(g: SherlockGraph, s: TState, w: int)
    requires
        inv(g, s),
        next_target(g, s, w),
        s.ix[w] >= 0,
    ensures
        inv(g, see(s, w)),
{
    lemma_see_frame_facts(g, s, w);
    lemma_see_a(g, s, w);
    lemma_see_b(g, s, w);
    lemma_see_c(g, s, w);
}

#[verifier::spinoff_prover]
#[verifier::rlimit(50)]
proof fn lemma_see_a(g: SherlockGraph, s: TState, w: int)
    requires
        inv(g, s),
        next_target(g, s, w),
        s.ix[w] >= 0,
    ensures
        inv_basic(g, see(s, w)),
        inv_stack(g, see(s, w)),
        inv_frames(g, see(s, w)),
        inv_done(g, see(s, w)),
        low_gw(g, see(s, w)),
        low_r1(g, see(s, w)),
{
    lemma_see_frame_facts(g, s, w);
    lemma_see_a1(g, s, w);
    lemma_see_a2(g, s, w);
    lemma_see_a3(g, s, w);
}

#[verifier::spinoff_prover]
#[verifier::rlimit(50)]
proof fn lemma_see_a1(g: SherlockGraph, s: TState, w: int)
    requires
        inv(g, s),
        next_target(g, s, w),
        s.ix[w] >= 0,
    ensures
        inv_basic(g, see(s, w)),
        inv_stack(g, see(s, w)),
        inv_done(g, see(s, w)),
{
    lemma_see_frame_facts(g, s, w);
    let s2 = see(s, w);
    reveal(inv_basic);
    reveal(inv_stack);
    reveal(inv_done);
    assert forall|v: int| 0 <= v < g.n() implies #[trigger] assigned(s2, v) == assigned(s, v)
        && label(s2, v) == label(s, v) by {}
}

#[verifier::spinoff_prover]
#[verifier::rlimit(50)]
proof fn lemma_see_a2(g: SherlockGraph, s: TState, w: int)
    requires
        inv(g, s),
        next_target(g, s, w),
        s.ix[w] >= 0,
    ensures
        inv_frames(g, see(s, w)),
{
    lemma_see_frame_facts(g, s, w);
    let s2 = see(s, w);
    let top = s.cs.len() - 1;
    reveal(inv_frames);
    assert forall|i: int| 0 <= i < s2.cs.len() implies (#[trigger] s2.cs[i]).u < g.n()
        && s2.cs[i].edge_cursor <= g.out(s2.cs[i].u as int).len()
        && s2.gpos[s2.cs[i].u as int] == i && s2.os[s2.cs[i].u as int] by {
        assert(s.cs[i].u < g.n());
        if i == top {
            assert(s.cs.last() == s.cs[i]);
        }
    }
    assert forall|i: int| 0 <= i && i + 1 < s2.cs.len() implies (#[trigger] s2.cs[i]).edge_cursor >= 1
        && tgt(g, s2.cs[i].u as int, s2.cs[i].edge_cursor - 1) == s2.cs[i + 1].u by {
        assert(s.cs[i].edge_cursor >= 1 && tgt(g, s.cs[i].u as int, s.cs[i].edge_cursor - 1) == s.cs[i + 1].u);
    }
    assert forall|i: int, j: int| 0 <= i < j < s2.cs.len()
        implies s2.ix[(#[trigger] s2.cs[i]).u as int] < s2.ix[(#[trigger] s2.cs[j]).u as int] by {
        assert(s.ix[s.cs[i].u as int] < s.ix[s.cs[j].u as int]);
    }
    assert forall|v: int| 0 <= v < g.n() && #[trigger] s2.gpos[v] >= 0 implies s2.gpos[v] < s2.cs.len()
        && s2.cs[s2.gpos[v]].u == v by {
        assert(s.cs[s.gpos[v]].u == v);
    }
}

#[verifier::spinoff_prover]
#[verifier::rlimit(50)]
proof fn lemma_see_a3(g: SherlockGraph, s: TState, w: int)
    requires
        inv(g, s),
        next_target(g, s, w),
        s.ix[w] >= 0,
    ensures
        low_gw(g, see(s, w)),
        low_r1(g, see(s, w)),
{
    lemma_see_frame_facts(g, s, w);
    let s2 = see(s, w);
    reveal(low_gw);
    reveal(low_r1);
    assert forall|i: int, v: int| 0 <= i < s2.cs.len() && 0 <= v < g.n() && s2.ix[v] >= 0
        && s2.ix[(#[trigger] s2.cs[i]).u as int] <= #[trigger] s2.ix[v]
        implies g.reaches(s2.cs[i].u as int, v) by {
        assert(s.cs[i].u == s2.cs[i].u);
    }
}

#[verifier::spinoff_prover]
#[verifier::rlimit(50)]
proof fn lemma_see_b(g: SherlockGraph, s: TState, w: int)
    requires
        inv(g, s),
        next_target(g, s, w),
        s.ix[w] >= 0,
    ensures
        low_nb(g, see(s, w)),
        low_lw(g, see(s, w)),
{
    lemma_see_frame_facts(g, s, w);
    let s2 = see(s, w);
    let top = s.cs.len() - 1;
    let u = s.cs.last().u as int;
    reveal(inv_stack);
    reveal(inv_frames);
    reveal(low_nb);
    reveal(low_lw);
    assert(s.cs.last() == s.cs[top]);
    assert(s.cs[top].u < g.n());
    assert forall|v: int, k: int| 0 <= v < g.n() && 0 <= k < explored(g, s2, v)
        implies s2.ix[#[trigger] tgt(g, v, k)] >= 0 by {
        if s.gpos[v] >= 0 && s.gpos[v] == top && k == s.cs[top].edge_cursor {
            assert(s.cs[top].u == v);
        } else {
            assert(k < explored(g, s, v));
        }
    }
    assert forall|v: int| 0 <= v < g.n() && #[trigger] s2.os[v] implies s2.lo[v] <= s2.ix[v]
        && s2.lw[v] < g.n() && s2.os[s2.lw[v] as int] && s2.ix[s2.lw[v] as int] <= s2.lo[v]
        && g.reaches(v, s2.lw[v] as int) by {
        if v == u && s.os[w] && s.ix[w] < s.lo[u] {
            lemma_reaches_edge(g, u, s.cs[top].edge_cursor as int);
        }
    }
}

#[verifier::spinoff_prover]
#[verifier::rlimit(50)]
proof fn lemma_see_c(g: SherlockGraph, s: TState, w: int)
    requires
        inv(g, s),
        next_target(g, s, w),
        s.ix[w] >= 0,
    ensures
        low_g1(g, see(s, w)),
        low_g2(g, see(s, w)),
{
    lemma_see_frame_facts(g, s, w);
    let s2 = see(s, w);
    let top = s.cs.len() - 1;
    let u = s.cs.last().u as int;
    reveal(inv_stack);
    reveal(inv_frames);
    reveal(low_g1);
    reveal(low_g2);
    assert(s.cs.last() == s.cs[top]);
    assert(s.cs[top].u < g.n());
    assert forall|i: int, k: int| 0 <= i < s2.cs.len() && 0 <= k < (#[trigger] s2.cs[i]).edge_cursor
        && s2.os[#[trigger] tgt(g, s2.cs[i].u as int, k)]
        implies s2.lo[s2.cs[i].u as int] <= s2.ix[tgt(g, s2.cs[i].u as int, k)] by {
        assert(s.cs[i].u < g.n());
        if i == top && k == s.cs[top].edge_cursor {
        } else {
            assert(s.lo[s.cs[i].u as int] <= s.ix[tgt(g, s.cs[i].u as int, k)]);
        }
    }
    assert forall|i: int, v: int, k: int| #![trigger s2.cs[i], tgt(g, v, k)]
        0 <= i < s2.cs.len() && 0 <= v < g.n() && 0 <= k < g.out(v).len()
        && s2.ix[v] >= 0 && s2.ix[s2.cs[i].u as int] < s2.ix[v] < bound(s2, i)
        && s2.os[tgt(g, v, k)]
        implies s2.lo[s2.cs[i].u as int] <= s2.ix[tgt(g, v, k)] by {
        assert(s.cs[i].u < g.n());
        assert(bound(s2, i) == bound(s, i));
        assert(s.lo[s.cs[i].u as int] <= s.ix[tgt(g, v, k)]);
    }
}

pub open spec fn with_scc(nd: Node, c: int) -> Node {
    Node { scc_id: Some(c as usize), ..nd }
}

/// The top frame has explored all its edges and is popped; its lowlink flows into the
/// parent frame, and when it is the root of a component the component is taken off the
/// stack and labelled.
pub open spec fn finish(s: TState) -> TState {
    let t = s.cs.len() - 1;
    let u = s.cs[t].u as int;
    let p = if t > 0 { s.cs[t - 1].u as int } else { 0 };
    let lo1 = if t > 0 {
        s.lo.update(p, if s.lo[u] < s.lo[p] { s.lo[u] } else { s.lo[p] })
    } else {
        s.lo
    };
    let lw1 = if t > 0 && s.lo[u] < s.lo[p] { s.lw.update(p, s.lw[u]) } else { s.lw };
    let base = TState { cs: s.cs.drop_last(), gpos: s.gpos.update(u, -1), lo: lo1, lw: lw1, ..s };
    if s.lo[u] == s.ix[u] {
        TState {
            os: Seq::new(s.os.len(), |v: int| s.os[v] && s.spos[v] < s.spos[u]),
            st: s.st.subrange(0, s.spos[u]),
            nodes: Seq::new(s.nodes.len(), |v: int|
                if s.os[v] && s.spos[v] >= s.spos[u] { with_scc(s.nodes[v], s.scc) } else { s.nodes[v] }),
            scc: s.scc + 1,
            rep: s.rep.push(u as usize),
            ..base
        }
    } else {
        TState {
            gw: Seq::new(s.gw.len(), |v: int| if s.gw[v] as int == u { s.gw[s.lw[u] as int] } else { s.gw[v] }),
            ..base
        }
    }
}

/// The top frame has explored all of its edges.
pub open spec fn top_done(g: SherlockGraph, s: TState) -> bool {
    &&& s.cs.len() > 0
    &&& s.cs.last().edge_cursor == g.out(s.cs.last().u as int).len()
}

proof fn lemma_ix_range(g: SherlockGraph, s: TState, v: int)
    requires
        inv(g, s),
        0 <= v < g.n(),
    ensures
        s.ix[v] == -1 || 0 <= s.ix[v] < s.counter,
{
    reveal(inv_basic);
}

proof fn lemma_ix_unique(g: SherlockGraph, s: TState, a: int, b: int)
    requires
        inv(g, s),
        0 <= a < g.n(),
        0 <= b < g.n(),
        s.ix[a] >= 0,
        s.ix[a] == s.ix[b],
    ensures
        a == b,
{
    reveal(inv_basic);
}

/// Facts about the state at the moment the top frame is finished.
#[verifier::spinoff_prover]
#[verifier::rlimit(50)]
proof fn lemma_finish_pre(g: SherlockGraph, s: TState)
    requires
        inv(g, s),
        top_done(g, s),
    ensures
        ({
            let t = s.cs.len() - 1;
            let u = s.cs[t].u as int;
            &&& s.cs.last() == s.cs[t]
            &&& 0 <= u < g.n()
            &&& s.os[u] && s.ix[u] >= 0 && s.lo[u] <= s.ix[u] && s.gpos[u] == t
            &&& 0 <= s.spos[u] < s.st.len() && s.st[s.spos[u]] == u
            &&& t > 0 ==> 0 <= s.cs[t - 1].u < g.n() && s.cs[t - 1].u != u
                && s.os[s.cs[t - 1].u as int]
                && s.ix[s.cs[t - 1].u as int] < s.ix[u]
                && s.lo[s.cs[t - 1].u as int] <= s.ix[s.cs[t - 1].u as int]
            // stacked nodes at or above u are exactly those with index at least u's
            &&& forall|v: int| 0 <= v < g.n() && #[trigger] s.os[v]
                    ==> (s.spos[v] >= s.spos[u] <==> s.ix[v] >= s.ix[u])
            // frame nodes other than u are below u
            &&& forall|i: int| 0 <= i < t ==> s.ix[(#[trigger] s.cs[i]).u as int] < s.ix[u]
                    && s.cs[i].u != u
        }),
{
    reveal(inv_stack);
    reveal(inv_frames);
    reveal(low_lw);
    reveal(inv_basic);
    let t = s.cs.len() - 1;
    let u = s.cs[t].u as int;
    assert(s.cs[t].u < g.n());
    if t > 0 {
        assert(s.cs[t - 1].u < g.n());
        assert(s.ix[s.cs[t - 1].u as int] < s.ix[s.cs[t].u as int]);
    }
    assert forall|v: int| 0 <= v < g.n() && #[trigger] s.os[v]
        implies (s.spos[v] >= s.spos[u] <==> s.ix[v] >= s.ix[u]) by {
        let i = s.spos[v];
        let j = s.spos[u];
        if i < j {
            assert(s.ix[s.st[i] as int] < s.ix[s.st[j] as int]);
        } else if i > j {
            assert(s.ix[s.st[j] as int] < s.ix[s.st[i] as int]);
        }
    }
    assert forall|i: int| 0 <= i < t implies s.ix[(#[trigger] s.cs[i]).u as int] < s.ix[u]
        && s.cs[i].u != u by {
        assert(s.ix[s.cs[i].u as int] < s.ix[s.cs[t].u as int]);
    }
}

/// Whether finishing the top frame closes a component.
pub open spec fn closes(s: TState) -> bool {
    let u = s.cs.last().u as int;
    s.lo[u] == s.ix[u]
}

#[verifier::spinoff_prover]
#[verifier::rlimit(50)]
proof fn lemma_finish_facts(g: SherlockGraph, s: TState)
    requires
        inv(g, s),
        top_done(g, s),
    ensures
        ({
            let t = s.cs.len() - 1;
            let u = s.cs[t].u as int;
            let s2 = finish(s);
            &&& s2.ix == s.ix && s2.counter == s.counter && s2.vset == s.vset && s2.spos == s.spos
            &&& s2.cs == s.cs.drop_last() && s2.gpos == s.gpos.update(u, -1)
            &&& s2.lo.len() == s.lo.len() && s2.lw.len() == s.lw.len() && s2.os.len() == s.os.len()
            &&& s2.nodes.len() == s.nodes.len() && s2.gw.len() == s.gw.len() && s2.gpos.len() == s.gpos.len()
            &&& forall|v: int| 0 <= v < g.n() && (t == 0 || v != s.cs[t - 1].u) ==> #[trigger] s2.lo[v] == s.lo[v]
                && s2.lw[v] == s.lw[v]
            &&& t > 0 ==> ({
                let p = s.cs[t - 1].u as int;
                &&& s2.lo[p] == (if s.lo[u] < s.lo[p] { s.lo[u] } else { s.lo[p] })
                &&& s2.lw[p] == (if s.lo[u] < s.lo[p] { s.lw[u] } else { s.lw[p] })
            })
            &&& closes(s) ==> {
                &&& forall|v: int| 0 <= v < g.n() ==> #[trigger] s2.os[v] == (s.os[v] && s.ix[v] < s.ix[u])
                &&& s2.st == s.st.subrange(0, s.spos[u])
                &&& forall|v: int| 0 <= v < g.n() ==> #[trigger] s2.nodes[v] ==
                        (if s.os[v] && s.ix[v] >= s.ix[u] { with_scc(s.nodes[v], s.scc) } else { s.nodes[v] })
                &&& s2.scc == s.scc + 1 && s2.rep == s.rep.push(u as usize)
                &&& s2.gw == s.gw
                &&& forall|v: int| 0 <= v < g.n() ==> #[trigger] label(s2, v) ==
                        (if s.os[v] && s.ix[v] >= s.ix[u] { s.scc } else { label(s, v) })
                &&& forall|v: int| 0 <= v < g.n() ==> #[trigger] assigned(s2, v) ==
                        (assigned(s, v) || (s.os[v] && s.ix[v] >= s.ix[u]))
            }
            &&& !closes(s) ==> {
                &&& s2.os == s.os && s2.st == s.st && s2.nodes == s.nodes && s2.scc == s.scc && s2.rep == s.rep
                &&& forall|v: int| 0 <= v < g.n() ==> #[trigger] s2.gw[v] ==
                        (if s.gw[v] as int == u { s.gw[s.lw[u] as int] } else { s.gw[v] })
            }
        }),
{
    lemma_finish_pre(g, s);
    let t = s.cs.len() - 1;
    let u = s.cs[t].u as int;
    let s2 = finish(s);
    if closes(s) {
        assert forall|v: int| 0 <= v < g.n() implies #[trigger] s2.os[v] == (s.os[v] && s.ix[v] < s.ix[u]) by {
            if s.os[v] {
                assert(s.spos[v] >= s.spos[u] <==> s.ix[v] >= s.ix[u]);
            }
        }
        assert forall|v: int| 0 <= v < g.n() implies #[trigger] s2.nodes[v] ==
            (if s.os[v] && s.ix[v] >= s.ix[u] { with_scc(s.nodes[v], s.scc) } else { s.nodes[v] }) by {
            if s.os[v] {
                assert(s.spos[v] >= s.spos[u] <==> s.ix[v] >= s.ix[u]);
            }
        }
        assert(0 <= s.scc < s.counter) by {
            reveal(inv_stack);
        }
        assert forall|v: int| 0 <= v < g.n() implies #[trigger] label(s2, v) ==
            (if s.os[v] && s.ix[v] >= s.ix[u] { s.scc } else { label(s, v) }) by {
            assert(s2.nodes[v] == (if s.os[v] && s.ix[v] >= s.ix[u] { with_scc(s.nodes[v], s.scc) } else { s.nodes[v] }));
        }
        assert forall|v: int| 0 <= v < g.n() implies #[trigger] assigned(s2, v) ==
            (assigned(s, v) || (s.os[v] && s.ix[v] >= s.ix[u])) by {
            assert(s2.os[v] == (s.os[v] && s.ix[v] < s.ix[u]));
        }
    }
}

#[verifier::spinoff_prover]
#[verifier::rlimit(50)]
proof fn lemma_finish_basic(g: SherlockGraph, s: TState)
    requires
        inv(g, s),
        top_done(g, s),
    ensures
        inv_basic(g, finish(s)),
        inv_stack(g, finish(s)),
{
    lemma_finish_pre(g, s);
    lemma_finish_facts(g, s);
    let t = s.cs.len() - 1;
    let u = s.cs[t].u as int;
    let s2 = finish(s);
    let n = g.n();
    reveal(inv_basic);
    reveal(inv_stack);
    assert forall|v: int| 0 <= v < n implies same_but_scc(#[trigger] s2.nodes[v], g.nodes@[v]) by {
        assert(same_but_scc(s.nodes[v], g.nodes@[v]));
    }
    if closes(s) {
        assert forall|i: int| 0 <= i < s2.st.len() implies (#[trigger] s2.st[i]) < n && s2.os[s2.st[i] as int]
            && s2.spos[s2.st[i] as int] == i by {
            assert(s2.st[i] == s.st[i]);
            assert(s.st[i] < n && s.os[s.st[i] as int] && s.spos[s.st[i] as int] == i);
            assert(s.ix[s.st[i] as int] < s.ix[s.st[s.spos[u]] as int]);
        }
        assert forall|i: int, j: int| 0 <= i < j < s2.st.len()
            implies s2.ix[#[trigger] s2.st[i] as int] < s2.ix[#[trigger] s2.st[j] as int] by {
            assert(s2.st[i] == s.st[i] && s2.st[j] == s.st[j]);
            assert(s.ix[s.st[i] as int] < s.ix[s.st[j] as int]);
        }
        assert forall|v: int| 0 <= v < n && #[trigger] s2.os[v] implies s2.ix[v] >= 0 && 0 <= s2.spos[v] < s2.st.len()
            && s2.st[s2.spos[v]] == v by {
            assert(s.os[v]);
            assert(s.spos[v] >= s.spos[u] <==> s.ix[v] >= s.ix[u]);
        }
    }
}

#[verifier::spinoff_prover]
#[verifier::rlimit(50)]
proof fn lemma_finish_frames(g: SherlockGraph, s: TState)
    requires
        inv(g, s),
        top_done(g, s),
    ensures
        inv_frames(g, finish(s)),
{
    lemma_finish_pre(g, s);
    lemma_finish_facts(g, s);
    let t = s.cs.len() - 1;
    let u = s.cs[t].u as int;
    let s2 = finish(s);
    let n = g.n();
    reveal(inv_frames);
    assert forall|i: int| 0 <= i < s2.cs.len() implies (#[trigger] s2.cs[i]).u < n
        && s2.cs[i].edge_cursor <= g.out(s2.cs[i].u as int).len()
        && s2.gpos[s2.cs[i].u as int] == i && s2.os[s2.cs[i].u as int] by {
        assert(s2.cs[i] == s.cs[i]);
        assert(s.cs[i].u < n && s.os[s.cs[i].u as int] && s.gpos[s.cs[i].u as int] == i);
        assert(s.ix[s.cs[i].u as int] < s.ix[u] && s.cs[i].u != u);
    }
    assert forall|i: int, j: int| 0 <= i < j < s2.cs.len()
        implies s2.ix[(#[trigger] s2.cs[i]).u as int] < s2.ix[(#[trigger] s2.cs[j]).u as int] by {
        assert(s2.cs[i] == s.cs[i] && s2.cs[j] == s.cs[j]);
        assert(s.ix[s.cs[i].u as int] < s.ix[s.cs[j].u as int]);
    }
    assert forall|v: int| 0 <= v < n && #[trigger] s2.gpos[v] >= 0 implies s2.gpos[v] < s2.cs.len()
        && s2.cs[s2.gpos[v]].u == v by {
        assert(v != u);
        assert(s.gpos[v] < s.cs.len() && s.cs[s.gpos[v]].u == v);
        assert(s.gpos[v] != t);
        assert(s2.cs[s2.gpos[v]] == s.cs[s.gpos[v]]);
    }
    assert forall|i: int| 0 <= i && i + 1 < s2.cs.len() implies (#[trigger] s2.cs[i]).edge_cursor >= 1
        && tgt(g, s2.cs[i].u as int, s2.cs[i].edge_cursor - 1) == s2.cs[i + 1].u by {
        assert(s2.cs[i] == s.cs[i] && s2.cs[i + 1] == s.cs[i + 1]);
        assert(s.cs[i].edge_cursor >= 1 && tgt(g, s.cs[i].u as int, s.cs[i].edge_cursor - 1) == s.cs[i + 1].u);
    }
}

#[verifier::spinoff_prover]
#[verifier::rlimit(50)]
proof fn lemma_finish_nb(g: SherlockGraph, s: TState)
    requires
        inv(g, s),
        top_done(g, s),
    ensures
        low_nb(g, finish(s)),
{
    lemma_finish_pre(g, s);
    lemma_finish_facts(g, s);
    let t = s.cs.len() - 1;
    let u = s.cs[t].u as int;
    let s2 = finish(s);
    let n = g.n();
    reveal(low_nb);
    reveal(inv_frames);
    assert forall|v: int, k: int| 0 <= v < n && 0 <= k < explored(g, s2, v)
        implies s2.ix[#[trigger] tgt(g, v, k)] >= 0 by {
        if v == u {
            assert(explored(g, s, v) == g.out(u).len());
        } else if s.gpos[v] >= 0 {
            assert(s.cs[s.gpos[v]].u == v);
            assert(s.gpos[v] != t);
            assert(s2.cs[s.gpos[v]] == s.cs[s.gpos[v]]);
            assert(explored(g, s2, v) == explored(g, s, v));
        } else {
            assert(explored(g, s2, v) == explored(g, s, v));
        }
    }
}

#[verifier::spinoff_prover]
#[verifier::rlimit(50)]
proof fn lemma_finish_g1(g: SherlockGraph, s: TState)
    requires
        inv(g, s),
        top_done(g, s),
    ensures
        low_g1(g, finish(s)),
{
    lemma_finish_pre(g, s);
    lemma_finish_facts(g, s);
    let t = s.cs.len() - 1;
    let u = s.cs[t].u as int;
    let s2 = finish(s);
    let n = g.n();
    reveal(low_g1);
    reveal(inv_frames);
    assert forall|i: int, k: int| 0 <= i < s2.cs.len() && 0 <= k < (#[trigger] s2.cs[i]).edge_cursor
        && s2.os[#[trigger] tgt(g, s2.cs[i].u as int, k)]
        implies s2.lo[s2.cs[i].u as int] <= s2.ix[tgt(g, s2.cs[i].u as int, k)] by {
        assert(s2.cs[i] == s.cs[i]);
        assert(s.cs[i].u < n);
        let x = tgt(g, s.cs[i].u as int, k);
        if closes(s) {
            assert(s.os[x]);
        }
        assert(s.lo[s.cs[i].u as int] <= s.ix[x]);
    }
}

#[verifier::spinoff_prover]
#[verifier::rlimit(50)]
proof fn lemma_finish_g2(g: SherlockGraph, s: TState)
    requires
        inv(g, s),
        top_done(g, s),
    ensures
        low_g2(g, finish(s)),
{
    lemma_finish_pre(g, s);
    lemma_finish_facts(g, s);
    let t = s.cs.len() - 1;
    let u = s.cs[t].u as int;
    let s2 = finish(s);
    let n = g.n();
    reveal(low_g2);
    reveal(low_g1);
    reveal(inv_frames);
    reveal(low_lw);
    assert forall|i: int, v: int, k: int| #![trigger s2.cs[i], tgt(g, v, k)]
        0 <= i < s2.cs.len() && 0 <= v < n && 0 <= k < g.out(v).len()
        && s2.ix[v] >= 0 && s2.ix[s2.cs[i].u as int] < s2.ix[v] < bound(s2, i)
        && s2.os[tgt(g, v, k)]
        implies s2.lo[s2.cs[i].u as int] <= s2.ix[tgt(g, v, k)] by {
        let x = tgt(g, v, k);
        let ui = s.cs[i].u as int;
        assert(s2.cs[i] == s.cs[i]);
        assert(s.cs[i].u < n);
        if closes(s) {
            assert(s.os[x]);
        }
        if i + 1 < t {
            assert(s2.cs[i + 1] == s.cs[i + 1]);
            assert(bound(s2, i) == bound(s, i));
            assert(s.lo[ui] <= s.ix[x]);
        } else {
            // i is the parent of u
            assert(i == t - 1);
            assert(s.cs[t].u as int == u);
            if s.ix[v] < s.ix[u] {
                assert(bound(s, i) == s.ix[u]);
                assert(s.lo[ui] <= s.ix[x]);
            } else if v == u {
                assert(s.cs[t].edge_cursor == g.out(u).len());
                assert(s.lo[u] <= s.ix[x]);
            } else {
                assert(bound(s, t) == s.counter);
                lemma_ix_range(g, s, v);
                if s.ix[v] == s.ix[u] {
                    lemma_ix_unique(g, s, v, u);
                }
                assert(s.ix[u] < s.ix[v]);
                assert(s.cs[t] == s.cs[t]);
                assert(s.lo[u] <= s.ix[x]);
            }
            assert(s.lo[ui] <= s.ix[ui]);
        }
    }
}

#[verifier::spinoff_prover]
#[verifier::rlimit(50)]
proof fn lemma_finish_lw(g: SherlockGraph, s: TState)
    requires
        inv(g, s),
        top_done(g, s),
    ensures
        low_lw(g, finish(s)),
{
    lemma_finish_pre(g, s);
    lemma_finish_facts(g, s);
    let t = s.cs.len() - 1;
    let u = s.cs[t].u as int;
    let s2 = finish(s);
    let n = g.n();
    reveal(low_lw);
    reveal(inv_frames);
    assert forall|v: int| 0 <= v < n && #[trigger] s2.os[v] implies s2.lo[v] <= s2.ix[v]
        && s2.lw[v] < n && s2.os[s2.lw[v] as int] && s2.ix[s2.lw[v] as int] <= s2.lo[v]
        && g.reaches(v, s2.lw[v] as int) by {
        assert(s.os[v]);
        if t > 0 && v == s.cs[t - 1].u as int && s.lo[u] < s.lo[v] {
            let p = v;
            assert(s.cs[t - 1].edge_cursor >= 1 && tgt(g, p, s.cs[t - 1].edge_cursor - 1) == s.cs[t].u);
            lemma_reaches_edge(g, p, s.cs[t - 1].edge_cursor - 1);
            lemma_reaches_trans(g, p, u, s.lw[u] as int);
            assert(!closes(s));
        } else {
            let x = s.lw[v] as int;
            assert(s.os[x] && s.ix[x] <= s.lo[v]);
            if closes(s) {
                assert(s.ix[v] < s.ix[u]);
            }
        }
    }
}

#[verifier::spinoff_prover]
#[verifier::rlimit(50)]
proof fn lemma_finish_gw_close(g: SherlockGraph, s: TState)
    requires
        inv(g, s),
        top_done(g, s),
        closes(s),
    ensures
        low_gw(g, finish(s)),
{
    lemma_finish_pre(g, s);
    lemma_finish_facts(g, s);
    let t = s.cs.len() - 1;
    let u = s.cs[t].u as int;
    let s2 = finish(s);
    reveal(low_gw);
    assert forall|v: int| 0 <= v < g.n() && #[trigger] s2.os[v] implies s2.gw[v] < g.n()
        && s2.gpos[s2.gw[v] as int] >= 0 && s2.ix[s2.gw[v] as int] <= s2.ix[v]
        && g.reaches(v, s2.gw[v] as int) by {
        assert(s.os[v] && s.ix[v] < s.ix[u]);
        let x = s.gw[v] as int;
        assert(s.gpos[x] >= 0 && s.ix[x] <= s.ix[v]);
        assert(x != u);
    }
}

#[verifier::spinoff_prover]
#[verifier::rlimit(50)]
proof fn lemma_finish_gw_keep(g: SherlockGraph, s: TState)
    requires
        inv(g, s),
        top_done(g, s),
        !closes(s),
    ensures
        low_gw(g, finish(s)),
{
    lemma_finish_pre(g, s);
    lemma_finish_facts(g, s);
    let t = s.cs.len() - 1;
    let u = s.cs[t].u as int;
    let s2 = finish(s);
    reveal(low_gw);
    reveal(low_lw);
    let y = s.lw[u] as int;
    assert(s.os[y] && s.ix[y] <= s.lo[u] && g.reaches(u, y));
    assert(s.lo[u] < s.ix[u]);
    let z = s.gw[y] as int;
    assert(s.gpos[z] >= 0 && s.ix[z] <= s.ix[y] && g.reaches(y, z));
    assert(z != u);
    lemma_reaches_trans(g, u, y, z);
    assert forall|v: int| 0 <= v < g.n() && #[trigger] s2.os[v] implies s2.gw[v] < g.n()
        && s2.gpos[s2.gw[v] as int] >= 0 && s2.ix[s2.gw[v] as int] <= s2.ix[v]
        && g.reaches(v, s2.gw[v] as int) by {
        let x = s.gw[v] as int;
        assert(s.gpos[x] >= 0 && s.ix[x] <= s.ix[v] && g.reaches(v, x));
        if x == u {
            lemma_reaches_trans(g, v, u, z);
        }
    }
}

#[verifier::spinoff_prover]
#[verifier::rlimit(50)]
proof fn lemma_finish_r1(g: SherlockGraph, s: TState)
    requires
        inv(g, s),
        top_done(g, s),
    ensures
        low_r1(g, finish(s)),
{
    lemma_finish_pre(g, s);
    lemma_finish_facts(g, s);
    let t = s.cs.len() - 1;
    let u = s.cs[t].u as int;
    let s2 = finish(s);
    let n = g.n();
    reveal(low_r1);
    assert forall|i: int, v: int| 0 <= i < s2.cs.len() && 0 <= v < n && s2.ix[v] >= 0
        && s2.ix[(#[trigger] s2.cs[i]).u as int] <= #[trigger] s2.ix[v]
        implies g.reaches(s2.cs[i].u as int, v) by {
        assert(s2.cs[i] == s.cs[i]);
    }
}

#[verifier::spinoff_prover]
#[verifier::rlimit(50)]
proof fn lemma_finish_closed(g: SherlockGraph, s: TState)
    requires
        inv(g, s),
        top_done(g, s),
        closes(s),
    ensures
        forall|a: int, k: int| 0 <= a < g.n() && 0 <= k < g.out(a).len() && #[trigger] assigned(finish(s), a)
            ==> assigned(finish(s), #[trigger] tgt(g, a, k))
                && label(finish(s), tgt(g, a, k)) <= label(finish(s), a),
        forall|v: int| 0 <= v < g.n() && #[trigger] assigned(finish(s), v) ==> finish(s).nodes[v].scc_id is Some
            && label(finish(s), v) < finish(s).scc,
{
    lemma_finish_pre(g, s);
    lemma_finish_facts(g, s);
    let t = s.cs.len() - 1;
    let u = s.cs[t].u as int;
    let s2 = finish(s);
    let n = g.n();
    reveal(inv_done);
    reveal(low_nb);
    reveal(low_g1);
    reveal(low_g2);
    assert forall|v: int| 0 <= v < n && #[trigger] assigned(s2, v) implies s2.nodes[v].scc_id is Some
        && label(s2, v) < s2.scc by {
        if !s.os[v] {
            assert(assigned(s, v));
        }
    }
    assert forall|a: int, k: int| 0 <= a < n && 0 <= k < g.out(a).len() && #[trigger] assigned(s2, a)
        implies assigned(s2, #[trigger] tgt(g, a, k)) && label(s2, tgt(g, a, k)) <= label(s2, a) by {
        let x = tgt(g, a, k);
        assert(0 <= x < n);
        if !s.os[a] {
            assert(assigned(s, a));
            assert(assigned(s, x) && label(s, x) <= label(s, a));
        } else {
            // a belongs to the component being closed
            assert(s.ix[a] >= s.ix[u]);
            if a == u {
                assert(explored(g, s, a) == g.out(a).len());
            } else {
                assert(s.gpos[a] < 0) by {
                    reveal(inv_frames);
                    if s.gpos[a] >= 0 {
                        let j = s.gpos[a];
                        assert(s.cs[j].u == a);
                        if j < t {
                            assert(s.ix[(s.cs[j]).u as int] < s.ix[u]);
                        }
                    }
                }
                assert(explored(g, s, a) == g.out(a).len());
            }
            assert(s.ix[x] >= 0);
            if s.os[x] {
                if a == u {
                    assert(s.cs[t].edge_cursor == g.out(u).len());
                    assert(s.lo[u] <= s.ix[x]);
                } else {
                    lemma_ix_range(g, s, a);
                    if s.ix[a] == s.ix[u] {
                        lemma_ix_unique(g, s, a, u);
                    }
                    assert(bound(s, t) == s.counter);
                    assert(s.cs[t] == s.cs[t]);
                    assert(s.lo[u] <= s.ix[x]);
                }
                assert(!s2.os[x]);
            } else {
                assert(assigned(s, x));
            }
        }
    }
}

#[verifier::spinoff_prover]
#[verifier::rlimit(50)]
proof fn lemma_finish_done(g: SherlockGraph, s: TState)
    requires
        inv(g, s),
        top_done(g, s),
    ensures
        inv_done(g, finish(s)),
{
    lemma_finish_pre(g, s);
    lemma_finish_facts(g, s);
    let t = s.cs.len() - 1;
    let u = s.cs[t].u as int;
    let s2 = finish(s);
    let n = g.n();
    if !closes(s) {
        reveal(inv_done);
        assert forall|v: int| 0 <= v < n implies #[trigger] assigned(s2, v) == assigned(s, v)
            && label(s2, v) == label(s, v) by {}
        return;
    }
    lemma_finish_closed(g, s);
    reveal(inv_done);
    reveal(low_gw);
    reveal(low_r1);
    reveal(inv_frames);
    let inside = |x: int| 0 <= x < n && assigned(s2, x);
    assert forall|x: int, k: int| 0 <= x < g.n() && inside(x) && 0 <= k < g.out(x).len()
        implies #[trigger] inside(g.out(x)[k].target_idx as int) by {
        assert(assigned(s2, tgt(g, x, k)));
    }
    assert forall|a: int, b: int| 0 <= a < n && 0 <= b < n && #[trigger] assigned(s2, a)
        && #[trigger] assigned(s2, b) && label(s2, a) == label(s2, b) implies g.reaches(a, b) by {
        if s.os[a] || s.os[b] {
            if !s.os[a] {
                assert(assigned(s, a));
            }
            if !s.os[b] {
                assert(assigned(s, b));
            }
            assert(s.os[a] && s.os[b]);
            // both lie in the closed component: a reaches u, and u reaches b
            assert(s.cs[t] == s.cs[t]);
            assert(g.reaches(u, b));
            let x = s.gw[a] as int;
            assert(s.gpos[x] >= 0 && g.reaches(a, x));
            if x != u {
                assert(s.cs[s.gpos[x]].u == x);
                assert(s.gpos[x] != t);
                assert(s.ix[x] < s.ix[u]);
                assert(s.os[x]);
                assert(!inside(x));
                lemma_reaches_closed(g, inside, a, x);
            }
            lemma_reaches_trans(g, a, u, b);
        } else {
            assert(assigned(s, a) && assigned(s, b));
        }
    }
    assert forall|c: int| 0 <= c < s2.scc implies (#[trigger] s2.rep[c]) < n && assigned(s2, s2.rep[c] as int)
        && label(s2, s2.rep[c] as int) == c by {
        if c < s.scc {
            assert(s2.rep[c] == s.rep[c]);
            assert(assigned(s, s.rep[c] as int));
        }
    }
}

proof fn lemma_finish(g: SherlockGraph, s: TState)
    requires
        inv(g, s),
        top_done(g, s),
    ensures
        inv(g, finish(s)),
{
    lemma_finish_facts(g, s);
    lemma_finish_basic(g, s);
    lemma_finish_frames(g, s);
    lemma_finish_nb(g, s);
    lemma_finish_g1(g, s);
    lemma_finish_g2(g, s);
    lemma_finish_lw(g, s);
    if closes(s) {
        lemma_finish_gw_close(g, s);
    } else {
        lemma_finish_gw_keep(g, s);
    }
    lemma_finish_r1(g, s);
    lemma_finish_done(g, s);
}

/// Unexplored edges of the frames on the call stack.
pub open spec fn remaining(g: SherlockGraph, cs: Seq<Frame>) -> nat
    decreases cs.len(),
{
    if cs.len() == 0 {
        0
    } else {
        remaining(g, cs.drop_last()) + (g.out(cs.last().u as int).len() - cs.last().edge_cursor) as nat
    }
}

proof fn lemma_remaining_advance(g: SherlockGraph, s: TState)
    requires
        s.cs.len() > 0,
        s.cs.last().edge_cursor < g.out(s.cs.last().u as int).len(),
        s.cs.last().edge_cursor < usize::MAX,
    ensures
        remaining(g, advance(s).cs) < remaining(g, s.cs),
{
    let a = advance(s);
    assert(a.cs.drop_last() =~= s.cs.drop_last());
}

proof fn lemma_remaining_finish(g: SherlockGraph, s: TState)
    requires
        top_done(g, s),
    ensures
        remaining(g, s.cs.drop_last()) == remaining(g, s.cs),
{
}

/// One step of the search, on the next start node and the search state: with an empty
/// call stack it moves on to the next start node, or starts a search from it when it is
/// not yet visited; otherwise the top frame follows its next edge (visiting a new node,
/// or looking at a visited one) or, with no edge left, finishes.
pub open spec fn search_step(g: SherlockGraph, start: int, s: TState) -> (int, TState) {
    if s.cs.len() == 0 {
        if start >= g.n() {
            (start, s)
        } else if s.ix[start] != -1 {
            (start + 1, s)
        } else {
            (start, visit(pre_visit(s), start))
        }
    } else {
        let f = s.cs.last();
        if f.edge_cursor < g.out(f.u as int).len() {
            let v = tgt(g, f.u as int, f.edge_cursor as int);
            if 0 <= v < s.ix.len() && s.ix[v] == -1 {
                (start, visit(pre_visit(s), v))
            } else {
                (start, see(s, v))
            }
        } else {
            (start, finish(s))
        }
    }
}

/// The start node and search state after `t` steps of the search on `g`.
pub open spec fn search_after(g: SherlockGraph, t: nat) -> (int, TState)
    decreases t,
{
    if t == 0 {
        (0, initial(g))
    } else {
        let (start, s) = search_after(g, (t - 1) as nat);
        search_step(g, start, s)
    }
}

/// The search has run through every start node and has nothing left on its call stack.
pub open spec fn search_done(g: SherlockGraph, st: (int, TState)) -> bool {
    st.1.cs.len() == 0 && st.0 >= g.n()
}

proof fn lemma_done_stays(g: SherlockGraph, t: nat, d: nat)
    requires
        search_done(g, search_after(g, t)),
    ensures
        search_after(g, t + d) == search_after(g, t),
    decreases d,
{
    if d > 0 {
        lemma_done_stays(g, t, (d - 1) as nat);
        assert(search_after(g, t + d) == search_step(g, search_after(g, (t + d - 1) as nat).0, search_after(g, (t + d - 1) as nat).1));
    }
}

/// The search is deterministic: once done, its state no longer changes, so every run of
/// it to the end on the same graph ends in the same state (labels and count included).
pub proof fn law_search_end_is_unique(g: SherlockGraph, t1: nat, t2: nat)
    requires
        search_done(g, search_after(g, t1)),
        search_done(g, search_after(g, t2)),
    ensures
        search_after(g, t1) == search_after(g, t2),
{
    if t1 <= t2 {
        lemma_done_stays(g, t1, (t2 - t1) as nat);
    } else {
        lemma_done_stays(g, t2, (t1 - t2) as nat);
    }
}

/// Two search states agree on everything but the node records, and the nodes that the
/// first state has finished (visited and no longer on the stack) carry the same label
/// in both.
pub open spec fn same_search(s1: TState, s2: TState) -> bool {
    &&& TState { nodes: s2.nodes, ..s1 } == s2
    &&& s1.nodes.len() == s2.nodes.len()
    &&& forall|v: int| 0 <= v < s1.nodes.len() && 0 <= v < s1.ix.len() && #[trigger] s1.ix[v] >= 0 && !s1.os[v]
            ==> s1.nodes[v].scc_id == s2.nodes[v].scc_id
}

proof fn lemma_step_lengths(g: SherlockGraph, start: int, s: TState)
    requires
        0 <= start,
        s.ix.len() == g.n(),
        s.os.len() == g.n(),
    ensures
        0 <= search_step(g, start, s).0,
        search_step(g, start, s).1.ix.len() == s.ix.len(),
        search_step(g, start, s).1.os.len() == s.os.len(),
        search_step(g, start, s).1.nodes.len() == s.nodes.len(),
{
    if s.cs.len() == 0 {
        if start >= g.n() {
        } else if s.ix[start] != -1 {
        } else {
            assert(pre_visit(s) == s);
        }
    } else {
        let f = s.cs.last();
        if f.edge_cursor < g.out(f.u as int).len() {
            let v = tgt(g, f.u as int, f.edge_cursor as int);
            let a = advance(s);
            assert(a.ix == s.ix && a.os == s.os && a.nodes == s.nodes);
            if 0 <= v < s.ix.len() && s.ix[v] == -1 {
                assert(pre_visit(s) == a);
            } else {
            }
        } else {
        }
    }
}

proof fn lemma_same_search_step(g1: SherlockGraph, g2: SherlockGraph, start: int, s1: TState, s2: TState)
    requires
        g1.adj_list@ == g2.adj_list@,
        g1.n() == g2.n(),
        same_search(s1, s2),
        0 <= start,
        s1.ix.len() == g1.n(),
        s1.os.len() == g1.n(),
    ensures
        search_step(g1, start, s1).0 == search_step(g2, start, s2).0,
        same_search(search_step(g1, start, s1).1, search_step(g2, start, s2).1),
{
    lemma_step_lengths(g1, start, s1);
    lemma_step_lengths(g2, start, s2);
    let r1 = search_step(g1, start, s1).1;
    let r2 = search_step(g2, start, s2).1;
    assert(s2.cs == s1.cs && s2.ix == s1.ix && s2.os == s1.os && s2.lo == s1.lo && s2.spos == s1.spos
        && s2.scc == s1.scc && s2.counter == s1.counter);
    if s1.cs.len() == 0 {
        if start >= g1.n() {
        } else if s1.ix[start] != -1 {
        } else {
            assert(pre_visit(s1) == s1 && pre_visit(s2) == s2);
            assert(r1 == visit(s1, start) && r2 == visit(s2, start));
            assert(r2.nodes == s2.nodes && r1.nodes == s1.nodes);
            assert(TState { nodes: r2.nodes, ..r1 } == r2);
            assert forall|v: int| 0 <= v < r1.nodes.len() && 0 <= v < r1.ix.len() && #[trigger] r1.ix[v] >= 0 && !r1.os[v]
                implies r1.nodes[v].scc_id == r2.nodes[v].scc_id by {
                assert(v != start);
                assert(s1.ix[v] >= 0 && !s1.os[v]);
            }
        }
    } else {
        let f = s1.cs.last();
        let ua = f.u as int;
        assert(g1.out(ua) == g2.out(ua));
        if f.edge_cursor < g1.out(f.u as int).len() {
            let v = tgt(g1, f.u as int, f.edge_cursor as int);
            assert(v == tgt(g2, f.u as int, f.edge_cursor as int));
            let a1 = advance(s1);
            let a2 = advance(s2);
            assert(TState { nodes: a2.nodes, ..a1 } == a2);
            if 0 <= v < s1.ix.len() && s1.ix[v] == -1 {
                assert(r1 == visit(a1, v) && r2 == visit(a2, v));
                assert(TState { nodes: r2.nodes, ..r1 } == r2);
                assert forall|x: int| 0 <= x < r1.nodes.len() && 0 <= x < r1.ix.len() && #[trigger] r1.ix[x] >= 0 && !r1.os[x]
                    implies r1.nodes[x].scc_id == r2.nodes[x].scc_id by {
                    assert(x != v);
                    assert(s1.ix[x] >= 0 && !s1.os[x]);
                }
            } else {
                assert(r1 == see(s1, v) && r2 == see(s2, v));
                assert(TState { nodes: r2.nodes, ..r1 } == r2);
                assert(r1.nodes == s1.nodes && r2.nodes == s2.nodes && r1.ix == s1.ix && r1.os == s1.os);
            }
        } else {
            let t = s1.cs.len() - 1;
            let u = s1.cs[t].u as int;
            assert(r1 == finish(s1) && r2 == finish(s2));
            assert(TState { nodes: r2.nodes, ..r1 } == r2);
            if s1.lo[u] == s1.ix[u] {
                assert forall|v: int| 0 <= v < r1.nodes.len() && 0 <= v < r1.ix.len() && #[trigger] r1.ix[v] >= 0 && !r1.os[v]
                    implies r1.nodes[v].scc_id == r2.nodes[v].scc_id by {
                    if s1.os[v] && s1.spos[v] >= s1.spos[u] {
                    } else {
                        assert(!s1.os[v]);
                    }
                }
            } else {
                assert(r1.nodes == s1.nodes && r2.nodes == s2.nodes && r1.ix == s1.ix && r1.os == s1.os);
            }
        }
    }
}

proof fn lemma_same_search_after(g1: SherlockGraph, g2: SherlockGraph, t: nat)
    requires
        g1.adj_list@ == g2.adj_list@,
        g1.n() == g2.n(),
    ensures
        search_after(g1, t).0 == search_after(g2, t).0,
        same_search(search_after(g1, t).1, search_after(g2, t).1),
    decreases t,
{
    if t == 0 {
        let a = initial(g1);
        let b = initial(g2);
        assert(TState { nodes: b.nodes, ..a } == b);
    } else {
        lemma_same_search_after(g1, g2, (t - 1) as nat);
        let (st1, s1) = search_after(g1, (t - 1) as nat);
        let (st2, s2) = search_after(g2, (t - 1) as nat);
        lemma_run_lengths(g1, (t - 1) as nat);
        lemma_same_search_step(g1, g2, st1, s1, s2);
    }
}

/// The labels depend only on the edges: a search on a graph with the same adjacency
/// lists (whatever labels its nodes carry already) takes the same steps, ends at the
/// same time, and gives every node the same label and the same component count.
pub proof fn law_labels_depend_only_on_edges(g1: SherlockGraph, g2: SherlockGraph, t: nat)
    requires
        g1.adj_list@ == g2.adj_list@,
        g1.n() == g2.n(),
        search_done(g1, search_after(g1, t)),
        forall|v: int| 0 <= v < g1.n() ==> #[trigger] assigned(search_after(g1, t).1, v),
    ensures
        search_done(g2, search_after(g2, t)),
        search_after(g1, t).1.scc == search_after(g2, t).1.scc,
        forall|v: int| 0 <= v < g1.n() ==> (#[trigger] search_after(g1, t).1.nodes[v]).scc_id
            == search_after(g2, t).1.nodes[v].scc_id,
{
    lemma_same_search_after(g1, g2, t);
    let s1 = search_after(g1, t).1;
    let s2 = search_after(g2, t).1;
    assert(s2.cs == s1.cs && s2.scc == s1.scc);
    assert forall|v: int| 0 <= v < g1.n() implies (#[trigger] search_after(g1, t).1.nodes[v]).scc_id
        == search_after(g2, t).1.nodes[v].scc_id by {
        assert(assigned(s1, v));
        lemma_run_lengths(g1, t);
    }
}

proof fn lemma_run_lengths(g: SherlockGraph, t: nat)
    ensures
        search_after(g, t).1.nodes.len() == g.nodes@.len(),
        search_after(g, t).1.ix.len() == g.n(),
        search_after(g, t).1.os.len() == g.n(),
        0 <= search_after(g, t).0,
    decreases t,
{
    if t > 0 {
        lemma_run_lengths(g, (t - 1) as nat);
        let (st, s0) = search_after(g, (t - 1) as nat);
        lemma_step_lengths(g, st, s0);
    }
}

pub open spec fn initial(g: SherlockGraph) -> TState {
    let n = g.n();
    TState {
        ix: Seq::new(n, |v: int| -1i64),
        lo: Seq::new(n, |v: int| -1i64),
        os: Seq::new(n, |v: int| false),
        st: Seq::empty(),
        cs: Seq::empty(),
        counter: 0,
        scc: 0,
        nodes: g.nodes@,
        gpos: Seq::new(n, |v: int| -1int),
        spos: Seq::new(n, |v: int| -1int),
        lw: Seq::new(n, |v: int| 0usize),
        gw: Seq::new(n, |v: int| 0usize),
        rep: Seq::empty(),
        vset: Set::empty(),
    }
}

proof fn lemma_initial(g: SherlockGraph)
    requires
        g.adj_wf(),
        g.n() < i64::MAX,
        g.n() <= usize::MAX,
    ensures
        inv(g, initial(g)),
{
    let s = initial(g);
    reveal(inv_basic);
    reveal(inv_stack);
    reveal(inv_frames);
    reveal(inv_done);
    reveal(low_nb);
    reveal(low_g1);
    reveal(low_g2);
    reveal(low_lw);
    reveal(low_gw);
    reveal(low_r1);
    assert(s.vset.len() == 0);
    assert forall|v: int| 0 <= v < g.n() implies same_but_scc(#[trigger] s.nodes[v], g.nodes@[v]) by {}
}

/// Reachability depends on the adjacency lists only.
pub proof fn lemma_reaches_same_adj(g1: SherlockGraph, g2: SherlockGraph, u: int, v: int)
    requires
        g1.adj_list@ == g2.adj_list@,
    ensures
        g1.reaches(u, v) == g2.reaches(u, v),
{
    reveal(SherlockGraph::reaches);
    assert forall|p: Seq<int>| g1.is_walk(p) == g2.is_walk(p) by {
        assert forall|i: int| #![trigger p[i]] 0 <= i < p.len() - 1 implies g1.has_edge(p[i], p[i + 1]) == g2.has_edge(p[i], p[i + 1]) by {
            assert(g1.out(p[i]) == g2.out(p[i]));
        }
    }
    if g1.reaches(u, v) {
        let p = choose|p: Seq<int>| #[trigger] g1.is_walk(p) && p[0] == u && p[p.len() - 1] == v;
        assert(g2.is_walk(p));
    }
    if g2.reaches(u, v) {
        let p = choose|p: Seq<int>| #[trigger] g2.is_walk(p) && p[0] == u && p[p.len() - 1] == v;
        assert(g1.is_walk(p));
    }
}

#[verifier::spinoff_prover]
#[verifier::rlimit(50)]
proof fn lemma_final(g0: SherlockGraph, s: TState, g: SherlockGraph)
    requires
        inv(g0, s),
        s.cs.len() == 0,
        forall|v: int| 0 <= v < g0.n() ==> #[trigger] s.ix[v] >= 0,
        g.adj_list@ == g0.adj_list@,
        g.nodes@ == s.nodes,
        g.entity_map@ == g0.entity_map@,
    ensures
        is_scc_labelling(g, s.scc),
        s.scc <= g.n(),
        g.adj_wf(),
        g0.wf() ==> g.wf(),
        forall|v: int| 0 <= v < g0.n() ==> same_but_scc(#[trigger] g.nodes@[v], g0.nodes@[v]),
        forall|v: int| 0 <= v < g0.n() ==> #[trigger] assigned(s, v),
{
    let n = g0.n();
    reveal(inv_done);
    reveal(low_gw);
    reveal(inv_stack);
    reveal(inv_basic);
    assert forall|v: int| 0 <= v < n implies same_but_scc(#[trigger] g.nodes@[v], g0.nodes@[v]) by {
        assert(same_but_scc(s.nodes[v], g0.nodes@[v]));
    }
    if g0.wf() {
        assert forall|i: int| 0 <= i < g.n() implies
            #[trigger] g.entity_map@.contains_key(g.nodes@[i].entity.name())
            && g.entity_map@[g.nodes@[i].entity.name()] == i by {
            assert(same_but_scc(g.nodes@[i], g0.nodes@[i]));
            assert(g.nodes@[i].entity == g0.nodes@[i].entity);
        }
        assert forall|name: Seq<char>| #[trigger] g.entity_map@.contains_key(name) implies
            g.entity_map@[name] < g.n() && g.nodes@[g.entity_map@[name] as int].entity.name() == name by {
            assert(g0.entity_map@.contains_key(name));
            let i = g0.entity_map@[name] as int;
            assert(same_but_scc(g.nodes@[i], g0.nodes@[i]));
            assert(g.nodes@[i].entity == g0.nodes@[i].entity);
        }
    }
    assert forall|u: int, k: int| 0 <= u < g.n() && 0 <= k < g.out(u).len()
        implies #[trigger] g.out(u)[k].target_idx < g.n() by {
        assert(g.out(u) == g0.out(u));
    }
    assert forall|v: int| 0 <= v < n implies #[trigger] assigned(s, v) by {
        if s.os[v] {
            assert(s.gpos[s.gw[v] as int] >= 0);
            reveal(inv_frames);
            assert(s.gw[v] < n);
        }
    }
    assert forall|v: int| 0 <= v < g.n() implies (#[trigger] g.nodes@[v]).scc_id is Some
        && scc_of(g, v) < s.scc by {
        assert(assigned(s, v));
    }
    assert forall|c: int| 0 <= c < s.scc implies #[trigger] label_used(g, c) by {
        let r = s.rep[c] as int;
        assert(assigned(s, r) && label(s, r) == c);
        assert(g.nodes@[r].scc_id == Some(c as usize));
    }
    let f = |x: int| if 0 <= x < n { scc_of(g, x) } else { 0 };
    assert forall|x: int, k: int| 0 <= x < g0.n() && 0 <= k < g0.out(x).len()
        implies #[trigger] f(g0.out(x)[k].target_idx as int) <= f(x) by {
        assert(assigned(s, x));
        assert(assigned(s, tgt(g0, x, k)) && label(s, tgt(g0, x, k)) <= label(s, x));
    }
    assert forall|u: int, v: int| 0 <= u < g.n() && 0 <= v < g.n() && #[trigger] g.reaches(u, v)
        implies scc_of(g, v) <= scc_of(g, u) by {
        lemma_reaches_same_adj(g, g0, u, v);
        lemma_reaches_descending(g0, f, u, v);
    }
    assert forall|u: int, v: int| #![trigger scc_of(g, u), scc_of(g, v)]
        0 <= u < g.n() && 0 <= v < g.n() && scc_of(g, u) == scc_of(g, v) implies g.reaches(u, v) by {
        assert(assigned(s, u) && assigned(s, v));
        lemma_reaches_same_adj(g, g0, u, v);
    }
}

pub open spec fn in_sync(s: TState, ix: Seq<i64>, lo: Seq<i64>, os: Seq<bool>, st: Seq<usize>,
    cs: Seq<Frame>, counter: i64, scc: usize, nodes: Seq<Node>) -> bool {
    &&& s.ix == ix && s.lo == lo && s.os == os && s.st == st && s.cs == cs
    &&& s.counter == counter as int && s.scc == scc as int && s.nodes == nodes
}

/// In a component labelling, two nodes carry the same label exactly when each reaches
/// the other.
pub proof fn law_same_label_iff_mutually_reachable(g: SherlockGraph, count: int, u: int, v: int)
    requires
        is_scc_labelling(g, count),
        0 <= u < g.n(),
        0 <= v < g.n(),
    ensures
        (scc_of(g, u) == scc_of(g, v)) <==> (g.reaches(u, v) && g.reaches(v, u)),
{
    if scc_of(g, u) == scc_of(g, v) {
        assert(g.reaches(u, v));
        assert(g.reaches(v, u));
    }
    if g.reaches(u, v) && g.reaches(v, u) {
        assert(scc_of(g, v) <= scc_of(g, u));
        assert(scc_of(g, u) <= scc_of(g, v));
    }
}

impl TarjanScc {
    /// Labels every node with its strongly connected component and returns the number of
    /// components. Components are numbered in the order in which the search closes them:
    /// the labels and the count are those of the end state of the step-by-step search
    /// `search_after` on the input graph.
    pub fn compute(graph: &mut SherlockGraph) -> (count: usize)
        requires
            old(graph).adj_wf(),
            old(graph).n() < i64::MAX,
        ensures
            final(graph).adj_wf(),
            old(graph).wf() ==> final(graph).wf(),
            final(graph).adj_list@ == old(graph).adj_list@,
            final(graph).entity_map@ == old(graph).entity_map@,
            final(graph).n() == old(graph).n(),
            forall|v: int| 0 <= v < old(graph).n() ==>
                same_but_scc(#[trigger] final(graph).nodes@[v], old(graph).nodes@[v]),
            count <= final(graph).n(),
            is_scc_labelling(*final(graph), count as int),
            exists|t: nat| #[trigger] search_done(*old(graph), search_after(*old(graph), t))
                && final(graph).nodes@ == search_after(*old(graph), t).1.nodes
                && count == search_after(*old(graph), t).1.scc
                && forall|v: int| 0 <= v < old(graph).n() ==> #[trigger] assigned(search_after(*old(graph), t).1, v),
    {
        let n = graph.nodes.len();
        let ghost g0 = *graph;
        let mut indices: Vec<i64> = vec![-1i64; n];
        let mut lowlinks: Vec<i64> = vec![-1i64; n];
        let mut on_stack: Vec<bool> = vec![false; n];
        let mut stack: Vec<usize> = Vec::new();
        let mut index_counter: i64 = 0;
        let mut scc_counter: usize = 0;
        let mut call_stack: Vec<Frame> = Vec::new();
        let ghost mut gs = initial(g0);
        let ghost mut t: nat = 0;
        proof {
            lemma_initial(g0);
            assert(indices@ =~= gs.ix);
            assert(lowlinks@ =~= gs.lo);
            assert(on_stack@ =~= gs.os);
            assert(stack@ =~= gs.st);
            assert(call_stack@ =~= gs.cs);
        }
        let mut start: usize = 0;
        while start < n
            invariant
                n == g0.n(),
                0 <= start <= n,
                graph.adj_list@ == g0.adj_list@,
                graph.entity_map@ == g0.entity_map@,
                inv(g0, gs),
                in_sync(gs, indices@, lowlinks@, on_stack@, stack@, call_stack@, index_counter, scc_counter, graph.nodes@),
                gs.cs.len() == 0,
                forall|v: int| 0 <= v < start ==> #[trigger] gs.ix[v] >= 0,
                search_after(g0, t) == (start as int, gs),
            decreases n - start,
        {
            if indices[start] != -1 {
                proof {
                    lemma_ix_range(g0, gs, start as int);
                    assert(search_after(g0, t + 1) == search_step(g0, start as int, gs));
                    t = t + 1;
                }
                start += 1;
                continue;
            }
            proof {
                lemma_visit(g0, gs, start as int);
            }
            call_stack.push(Frame { u: start, edge_cursor: 0 });
            indices.set(start, index_counter);
            lowlinks.set(start, index_counter);
            index_counter += 1;
            stack.push(start);
            on_stack.set(start, true);
            proof {
                assert(search_after(g0, t + 1) == search_step(g0, start as int, gs));
                gs = visit(pre_visit(gs), start as int);
                t = t + 1;
            }
            while call_stack.len() > 0
                invariant
                    n == g0.n(),
                    0 <= start < n,
                    graph.adj_list@ == g0.adj_list@,
                    graph.entity_map@ == g0.entity_map@,
                    inv(g0, gs),
                    in_sync(gs, indices@, lowlinks@, on_stack@, stack@, call_stack@, index_counter, scc_counter, graph.nodes@),
                    forall|v: int| 0 <= v <= start ==> #[trigger] gs.ix[v] >= 0,
                    search_after(g0, t) == (start as int, gs),
                decreases n - gs.counter, remaining(g0, gs.cs), gs.cs.len(),
            {
                let top = call_stack.len() - 1;
                let u = call_stack[top].u;
                let ec = call_stack[top].edge_cursor;
                proof {
                    reveal(inv_frames);
                    assert(gs.cs.last() == gs.cs[top as int]);
                }
                if ec < graph.adj_list[u].len() {
                    let v = graph.adj_list[u][ec].target_idx;
                    call_stack.set(top, Frame { u, edge_cursor: ec + 1 });
                    if indices[v] == -1 {
                        proof {
                            assert(next_target(g0, gs, v as int));
                            lemma_visit(g0, gs, v as int);
                        }
                        indices.set(v, index_counter);
                        lowlinks.set(v, index_counter);
                        index_counter += 1;
                        stack.push(v);
                        on_stack.set(v, true);
                        call_stack.push(Frame { u: v, edge_cursor: 0 });
                        proof {
                            assert(search_after(g0, t + 1) == search_step(g0, start as int, gs));
                            gs = visit(pre_visit(gs), v as int);
                            t = t + 1;
                            assert(indices@ =~= gs.ix);
                            assert(lowlinks@ =~= gs.lo);
                            assert(on_stack@ =~= gs.os);
                            assert(stack@ =~= gs.st);
                            assert(call_stack@ =~= gs.cs);
                        }
                    } else {
                        proof {
                            assert(next_target(g0, gs, v as int));
                            assert(g0.out(u as int)[ec as int].target_idx < g0.n());
                            lemma_ix_range(g0, gs, v as int);
                            lemma_see(g0, gs, v as int);
                        }
                        if on_stack[v] {
                            let lv = indices[v];
                            let lu = lowlinks[u];
                            if lv < lu {
                                lowlinks.set(u, lv);
                            }
                        }
                        proof {
                            lemma_remaining_advance(g0, gs);
                            assert(search_after(g0, t + 1) == search_step(g0, start as int, gs));
                            gs = see(gs, v as int);
                            t = t + 1;
                            assert(lowlinks@ =~= gs.lo);
                            assert(call_stack@ =~= gs.cs);
                        }
                    }
                } else {
                    proof {
                        lemma_finish(g0, gs);
                        lemma_finish_pre(g0, gs);
                    }
                    let ghost pre = gs;
                    call_stack.pop();
                    if call_stack.len() > 0 {
                        let pu = call_stack[call_stack.len() - 1].u;
                        let lu = lowlinks[pu];
                        let lu2 = lowlinks[u];
                        if lu2 < lu {
                            lowlinks.set(pu, lu2);
                        }
                    }
                    if lowlinks[u] == indices[u] {
                        proof {
                            reveal(inv_stack);
                            assert forall|x: int| 0 <= x < n implies #[trigger] on_stack@[x] ==
                                (pre.os[x] && pre.spos[x] < stack.len()) by {}
                            assert(stack@ =~= pre.st.subrange(0, stack.len() as int));
                        }
                        loop
                            invariant_except_break
                                0 <= pre.spos[u as int] < stack.len() <= pre.st.len(),
                                stack@ == pre.st.subrange(0, stack.len() as int),
                                on_stack@.len() == n,
                                graph.nodes@.len() == n,
                                forall|x: int| 0 <= x < n ==> #[trigger] on_stack@[x] ==
                                    (pre.os[x] && pre.spos[x] < stack.len()),
                                forall|x: int| 0 <= x < n ==> #[trigger] graph.nodes@[x] ==
                                    (if pre.os[x] && pre.spos[x] >= stack.len() { with_scc(pre.nodes[x], pre.scc) }
                                     else { pre.nodes[x] }),
                            invariant
                                n == g0.n(),
                                inv(g0, pre),
                                top_done(g0, pre),
                                pre.scc == scc_counter,
                                u == pre.cs.last().u,
                                graph.adj_list@ == g0.adj_list@,
                                graph.entity_map@ == g0.entity_map@,
                            ensures
                                stack@ == pre.st.subrange(0, pre.spos[u as int]),
                                forall|x: int| 0 <= x < n ==> #[trigger] on_stack@[x] ==
                                    (pre.os[x] && pre.spos[x] < pre.spos[u as int]),
                                forall|x: int| 0 <= x < n ==> #[trigger] graph.nodes@[x] ==
                                    (if pre.os[x] && pre.spos[x] >= pre.spos[u as int] { with_scc(pre.nodes[x], pre.scc) }
                                     else { pre.nodes[x] }),
                                on_stack@.len() == n,
                                graph.nodes@.len() == n,
                            decreases stack.len(),
                        {
                            proof {
                                reveal(inv_stack);
                                let j = stack.len() - 1;
                                assert(pre.st[j] < n);
                            }
                            let v = stack.pop().unwrap();
                            proof {
                                reveal(inv_stack);
                                assert(v == pre.st[stack.len() as int]);
                                assert(pre.spos[v as int] == stack.len());
                                assert(stack@ =~= pre.st.subrange(0, stack.len() as int));
                                lemma_finish_pre(g0, pre);
                                assert(pre.st[pre.spos[u as int]] == u);
                            }
                            on_stack.set(v, false);
                            graph.nodes[v].scc_id = Some(scc_counter);
                            if v == u {
                                break;
                            }
                        }
                        scc_counter += 1;
                    }
                    proof {
                        lemma_finish_facts(g0, pre);
                        lemma_remaining_finish(g0, pre);
                        assert(search_after(g0, t + 1) == search_step(g0, start as int, gs));
                        gs = finish(gs);
                        t = t + 1;
                        assert(lowlinks@ =~= gs.lo);
                        assert(call_stack@ =~= gs.cs);
                        assert(on_stack@ =~= gs.os);
                        assert(stack@ =~= gs.st);
                        assert(graph.nodes@ =~= gs.nodes);
                    }
                }
            }
            proof {
                assert(gs.ix[start as int] != -1);
                assert(search_after(g0, t + 1) == search_step(g0, start as int, gs));
                t = t + 1;
            }
            start += 1;
        }
        proof {
            assert(search_done(g0, search_after(g0, t)));
            lemma_final(g0, gs, *graph);
            assert(indices@.len() == n);
        }
        scc_counter
    }
}

} // verus!
