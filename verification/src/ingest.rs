use vstd::prelude::*;
use crate::types::{EntityType, GraphView, SherlockGraph, TransactionEdge};
use crate::graph::{law_add_node_idempotent, law_add_transaction_adds_one_edge, spec_add_node, spec_add_transaction, total_edges, transaction_edge, view_wf};
use crate::csv::{csv_records, string_views};
use crate::rows::{DisbursementRow, QrTransactionRow, RemittanceRow, ServicePaymentRow, TransactionRow, WalletHistoryRow, disbursements_fields, long_records, parse_disbursements, parse_qr_transactions, parse_remittance, parse_service_payments, parse_unified_transactions, parse_wallet_history, qr_transactions_fields, remittance_fields, service_payments_fields, unified_transactions_fields, wallet_history_fields};

verus! {

/// A transaction read from a row: source name, target name, amount (`f64` bits) and timestamp.
pub type NamedTransaction = (Seq<char>, Seq<char>, u64, u64);

/// The bit pattern of the absolute value of the `f64` with bit pattern `b` (the sign bit cleared).
pub open spec fn abs_bits(b: u64) -> u64 {
    b & 0x7fff_ffff_ffff_ffffu64
}

/// The graph after recording, in order, every transaction that a row yields.
pub open spec fn spec_add_rows(v: GraphView, ts: Seq<Option<NamedTransaction>>) -> GraphView
    decreases ts.len(),
{
    if ts.len() == 0 {
        v
    } else {
        let v1 = spec_add_rows(v, ts.drop_last());
        match ts.last() {
            Some(t) => spec_add_transaction(v1, t.0, t.1, t.2, t.3),
            None => v1,
        }
    }
}

/// The number of rows that yield a transaction.
pub open spec fn yielded(ts: Seq<Option<NamedTransaction>>) -> nat
    decreases ts.len(),
{
    if ts.len() == 0 {
        0
    } else {
        yielded(ts.drop_last()) + (if ts.last() is Some { 1nat } else { 0nat })
    }
}

/// Ingestion only adds: every row that yields a transaction adds exactly one edge, the
/// other rows add nothing, and no node disappears.
pub proof fn law_rows_add_one_edge_each(v: GraphView, ts: Seq<Option<NamedTransaction>>)
    requires
        view_wf(v),
    ensures
        view_wf(spec_add_rows(v, ts)),
        total_edges(spec_add_rows(v, ts).adj) == total_edges(v.adj) + yielded(ts),
        spec_add_rows(v, ts).nodes.len() >= v.nodes.len(),
    decreases ts.len(),
{
    if ts.len() > 0 {
        law_rows_add_one_edge_each(v, ts.drop_last());
        let v1 = spec_add_rows(v, ts.drop_last());
        if let Some(t) = ts.last() {
            law_add_transaction_adds_one_edge(v1, t.0, t.1, t.2, t.3);
            let (v2, si) = spec_add_node(v1, t.0);
            law_add_node_idempotent(v1, t.0);
            law_add_node_idempotent(v2, t.1);
        }
    }
}

/// `after` is `before` with one more edge: the graph has one edge more, and the node
/// named `s` has, as its last edge, an edge to the node named `t` that carries `amount`
/// and `timestamp`.
pub open spec fn adds_edge(before: GraphView, after: GraphView, s: Seq<char>, t: Seq<char>, amount: u64, timestamp: u64) -> bool {
    &&& total_edges(after.adj) == total_edges(before.adj) + 1
    &&& exists|si: int, ti: int|
            0 <= si < after.nodes.len() && 0 <= ti < after.nodes.len()
            && #[trigger] after.nodes[si].name == s && #[trigger] after.nodes[ti].name == t
            && after.adj[si].len() > 0
            && after.adj[si].last() == (TransactionEdge { target_idx: ti as usize, amount_bits: amount, created_on: timestamp, burstiness_bits: 0 })
}

proof fn lemma_add_transaction_adds_edge(v: GraphView, s: Seq<char>, t: Seq<char>, amount: u64, timestamp: u64)
    requires
        view_wf(v),
    ensures
        adds_edge(v, spec_add_transaction(v, s, t, amount, timestamp), s, t, amount, timestamp),
{
    law_add_transaction_adds_one_edge(v, s, t, amount, timestamp);
    let (v1, si) = spec_add_node(v, s);
    let (v2, ti) = spec_add_node(v1, t);
    law_add_node_idempotent(v, s);
    law_add_node_idempotent(v1, t);
    let w = spec_add_transaction(v, s, t, amount, timestamp);
    assert(w.nodes == v2.nodes);
    assert(0 <= si < v1.nodes.len() && v1.nodes.len() <= v2.nodes.len());
    assert(w.adj[si] == v2.adj[si].push(transaction_edge(ti, amount, timestamp)));
    assert(w.nodes[si].name == s && w.nodes[ti].name == t);
}

proof fn lemma_add_rows_push(v: GraphView, ts: Seq<Option<NamedTransaction>>, o: Option<NamedTransaction>)
    ensures
        spec_add_rows(v, ts.push(o)) == (match o {
            Some(t) => spec_add_transaction(spec_add_rows(v, ts), t.0, t.1, t.2, t.3),
            None => spec_add_rows(v, ts),
        }),
{
    assert(ts.push(o).drop_last() =~= ts);
}

proof fn lemma_long_records_len(recs: Seq<Seq<Seq<char>>>, n: int)
    ensures
        forall|i: int| 0 <= i < long_records(recs, n).len() ==> (#[trigger] long_records(recs, n)[i]).len() >= n,
    decreases recs.len(),
{
    if recs.len() > 0 {
        lemma_long_records_len(recs.drop_last(), n);
        let a = long_records(recs.drop_last(), n);
        let b = if recs.last().len() >= n { seq![recs.last()] } else { Seq::<Seq<Seq<char>>>::empty() };
        assert forall|i: int| 0 <= i < (a + b).len() implies (#[trigger] (a + b)[i]).len() >= n by {
            if i < a.len() {
                assert((a + b)[i] == a[i]);
            } else {
                assert((a + b)[i] == b[i - a.len()]);
            }
        }
    }
}

/// `prefix` followed by `id`.
fn prefixed(prefix: &str, id: &String) -> (r: String)
    ensures
        r@ == prefix@ + id@,
{
    let mut r = prefix.to_owned();
    r.append(id.as_str());
    r
}

/// The transaction that a wallet history row yields: none when either name is empty.
pub open spec fn wallet_history_transaction(r: WalletHistoryRow) -> Option<NamedTransaction> {
    if r.user_id@.len() > 0 && r.transaction_id@.len() > 0 {
        Some(("USR:"@ + r.user_id@, "TX:"@ + r.transaction_id@, abs_bits(r.transaction_effect_bits), r.created_on))
    } else {
        None
    }
}

pub open spec fn wallet_history_transactions(rows: Seq<WalletHistoryRow>) -> Seq<Option<NamedTransaction>> {
    rows.map_values(|r: WalletHistoryRow| wallet_history_transaction(r))
}

/// `rows` are the rows that `parse_wallet_history` reads from `lines`.
pub open spec fn parsed_wallet_history<F: Fn(&String) -> u64>(lines: Seq<String>, read_f64: F, rows: Seq<WalletHistoryRow>) -> bool {
    let recs = long_records(csv_records(string_views(lines)), 17);
    &&& rows.len() == recs.len()
    &&& forall|i: int| 0 <= i < rows.len() ==> wallet_history_fields(recs[i], #[trigger] rows[i], read_f64)
}

impl SherlockGraph {
    /// Records the transaction of every wallet history row, in order.
    pub fn add_wallet_history_rows(&mut self, rows: &Vec<WalletHistoryRow>)
        requires
            old(self).wf(),
        ensures
            final(self).wf(),
            final(self)@ == spec_add_rows(old(self)@, wallet_history_transactions(rows@)),
    {
        let mut i: usize = 0;
        while i < rows.len()
            invariant
                0 <= i <= rows.len(),
                self.wf(),
                self@ == spec_add_rows(old(self)@, wallet_history_transactions(rows@.take(i as int))),
            decreases rows.len() - i,
        {
            let r = &rows[i];
            proof {
                assert(wallet_history_transactions(rows@.take(i + 1)).drop_last() =~= wallet_history_transactions(rows@.take(i as int)));
                assert(wallet_history_transactions(rows@.take(i + 1)).last() == wallet_history_transaction(*r));
            }
            if !r.user_id.as_str().is_empty() && !r.transaction_id.as_str().is_empty() {
                let source = prefixed("USR:", &r.user_id);
                let target = prefixed("TX:", &r.transaction_id);
                self.add_transaction(EntityType::Account(source), EntityType::Account(target), r.transaction_effect_bits & 0x7fff_ffff_ffff_ffffu64, r.created_on);
            }
            i += 1;
        }
        proof {
            assert(rows@.take(rows@.len() as int) =~= rows@);
        }
    }

    /// Loads wallet history: an edge from `USR:<user_id>` to `TX:<transaction_id>` weighted by the absolute transaction effect.
    /// The text is given as its lines, the header first; rows with an empty name are skipped.
    /// Returns the number of rows read.
    pub fn load_wallet_history<F: Fn(&String) -> u64>(&mut self, lines: &Vec<String>, read_f64: &F) -> (n: usize)
        requires
            old(self).wf(),
            forall|x: &String| read_f64.requires((x,)),
        ensures
            final(self).wf(),
            exists|rows: Seq<WalletHistoryRow>| #[trigger] parsed_wallet_history(lines@, *read_f64, rows)
                && final(self)@ == spec_add_rows(old(self)@, wallet_history_transactions(rows))
                && n == rows.len(),
    {
        let rows = parse_wallet_history(lines, read_f64);
        self.add_wallet_history_rows(&rows);
        proof {
            assert(parsed_wallet_history(lines@, *read_f64, rows@));
        }
        rows.len()
    }
}

/// The transaction that a qr transactions row yields: none when either name is empty.
pub open spec fn qr_transactions_transaction(r: QrTransactionRow) -> Option<NamedTransaction> {
    if r.acquiree_id@.len() > 0 && r.issuee_id@.len() > 0 {
        Some(("ACQ:"@ + r.acquiree_id@, "ISS:"@ + r.issuee_id@, r.amount_bits, r.created_on))
    } else {
        None
    }
}

pub open spec fn qr_transactions_transactions(rows: Seq<QrTransactionRow>) -> Seq<Option<NamedTransaction>> {
    rows.map_values(|r: QrTransactionRow| qr_transactions_transaction(r))
}

/// `rows` are the rows that `parse_qr_transactions` reads from `lines`.
pub open spec fn parsed_qr_transactions<F: Fn(&String) -> u64>(lines: Seq<String>, read_f64: F, rows: Seq<QrTransactionRow>) -> bool {
    let recs = long_records(csv_records(string_views(lines)), 34);
    &&& rows.len() == recs.len()
    &&& forall|i: int| 0 <= i < rows.len() ==> qr_transactions_fields(recs[i], #[trigger] rows[i], read_f64)
}

impl SherlockGraph {
    /// Records the transaction of every qr transactions row, in order.
    pub fn add_qr_transactions_rows(&mut self, rows: &Vec<QrTransactionRow>)
        requires
            old(self).wf(),
        ensures
            final(self).wf(),
            final(self)@ == spec_add_rows(old(self)@, qr_transactions_transactions(rows@)),
    {
        let mut i: usize = 0;
        while i < rows.len()
            invariant
                0 <= i <= rows.len(),
                self.wf(),
                self@ == spec_add_rows(old(self)@, qr_transactions_transactions(rows@.take(i as int))),
            decreases rows.len() - i,
        {
            let r = &rows[i];
            proof {
                assert(qr_transactions_transactions(rows@.take(i + 1)).drop_last() =~= qr_transactions_transactions(rows@.take(i as int)));
                assert(qr_transactions_transactions(rows@.take(i + 1)).last() == qr_transactions_transaction(*r));
            }
            if !r.acquiree_id.as_str().is_empty() && !r.issuee_id.as_str().is_empty() {
                let source = prefixed("ACQ:", &r.acquiree_id);
                let target = prefixed("ISS:", &r.issuee_id);
                self.add_transaction(EntityType::Account(source), EntityType::Account(target), r.amount_bits, r.created_on);
            }
            i += 1;
        }
        proof {
            assert(rows@.take(rows@.len() as int) =~= rows@);
        }
    }

    /// Loads QR transactions: an edge from `ACQ:<acquiree_id>` to `ISS:<issuee_id>` weighted by the amount.
    /// The text is given as its lines, the header first; rows with an empty name are skipped.
    /// Returns the number of rows read.
    pub fn load_qr_transactions<F: Fn(&String) -> u64>(&mut self, lines: &Vec<String>, read_f64: &F) -> (n: usize)
        requires
            old(self).wf(),
            forall|x: &String| read_f64.requires((x,)),
        ensures
            final(self).wf(),
            exists|rows: Seq<QrTransactionRow>| #[trigger] parsed_qr_transactions(lines@, *read_f64, rows)
                && final(self)@ == spec_add_rows(old(self)@, qr_transactions_transactions(rows))
                && n == rows.len(),
    {
        let rows = parse_qr_transactions(lines, read_f64);
        self.add_qr_transactions_rows(&rows);
        proof {
            assert(parsed_qr_transactions(lines@, *read_f64, rows@));
        }
        rows.len()
    }
}

/// The transaction that a service payments row yields: none when either name is empty.
pub open spec fn service_payments_transaction(r: ServicePaymentRow) -> Option<NamedTransaction> {
    if r.user_id@.len() > 0 && r.service_id@.len() > 0 {
        Some(("USR:"@ + r.user_id@, "SVC:"@ + r.service_id@, r.amount_bits, r.created_on))
    } else {
        None
    }
}

pub open spec fn service_payments_transactions(rows: Seq<ServicePaymentRow>) -> Seq<Option<NamedTransaction>> {
    rows.map_values(|r: ServicePaymentRow| service_payments_transaction(r))
}

/// `rows` are the rows that `parse_service_payments` reads from `lines`.
pub open spec fn parsed_service_payments<F: Fn(&String) -> u64>(lines: Seq<String>, read_f64: F, rows: Seq<ServicePaymentRow>) -> bool {
    let recs = long_records(csv_records(string_views(lines)), 16);
    &&& rows.len() == recs.len()
    &&& forall|i: int| 0 <= i < rows.len() ==> service_payments_fields(recs[i], #[trigger] rows[i], read_f64)
}

impl SherlockGraph {
    /// Records the transaction of every service payments row, in order.
    pub fn add_service_payments_rows(&mut self, rows: &Vec<ServicePaymentRow>)
        requires
            old(self).wf(),
        ensures
            final(self).wf(),
            final(self)@ == spec_add_rows(old(self)@, service_payments_transactions(rows@)),
    {
        let mut i: usize = 0;
        while i < rows.len()
            invariant
                0 <= i <= rows.len(),
                self.wf(),
                self@ == spec_add_rows(old(self)@, service_payments_transactions(rows@.take(i as int))),
            decreases rows.len() - i,
        {
            let r = &rows[i];
            proof {
                assert(service_payments_transactions(rows@.take(i + 1)).drop_last() =~= service_payments_transactions(rows@.take(i as int)));
                assert(service_payments_transactions(rows@.take(i + 1)).last() == service_payments_transaction(*r));
            }
            if !r.user_id.as_str().is_empty() && !r.service_id.as_str().is_empty() {
                let source = prefixed("USR:", &r.user_id);
                let target = prefixed("SVC:", &r.service_id);
                self.add_transaction(EntityType::Account(source), EntityType::Account(target), r.amount_bits, r.created_on);
            }
            i += 1;
        }
        proof {
            assert(rows@.take(rows@.len() as int) =~= rows@);
        }
    }

    /// Loads service payments: an edge from `USR:<user_id>` to `SVC:<service_id>` weighted by the amount.
    /// The text is given as its lines, the header first; rows with an empty name are skipped.
    /// Returns the number of rows read.
    pub fn load_service_payments<F: Fn(&String) -> u64>(&mut self, lines: &Vec<String>, read_f64: &F) -> (n: usize)
        requires
            old(self).wf(),
            forall|x: &String| read_f64.requires((x,)),
        ensures
            final(self).wf(),
            exists|rows: Seq<ServicePaymentRow>| #[trigger] parsed_service_payments(lines@, *read_f64, rows)
                && final(self)@ == spec_add_rows(old(self)@, service_payments_transactions(rows))
                && n == rows.len(),
    {
        let rows = parse_service_payments(lines, read_f64);
        self.add_service_payments_rows(&rows);
        proof {
            assert(parsed_service_payments(lines@, *read_f64, rows@));
        }
        rows.len()
    }
}

/// The transaction that a remittance row yields: none when either name is empty.
pub open spec fn remittance_transaction(r: RemittanceRow) -> Option<NamedTransaction> {
    if r.sender_id@.len() > 0 && r.beneficary_account_no@.len() > 0 {
        Some(("SND:"@ + r.sender_id@, "BNF:"@ + r.beneficary_account_no@, r.amount_bits, r.created_on))
    } else {
        None
    }
}

pub open spec fn remittance_transactions(rows: Seq<RemittanceRow>) -> Seq<Option<NamedTransaction>> {
    rows.map_values(|r: RemittanceRow| remittance_transaction(r))
}

/// `rows` are the rows that `parse_remittance` reads from `lines`.
pub open spec fn parsed_remittance<F: Fn(&String) -> u64>(lines: Seq<String>, read_f64: F, rows: Seq<RemittanceRow>) -> bool {
    let recs = long_records(csv_records(string_views(lines)), 41);
    &&& rows.len() == recs.len()
    &&& forall|i: int| 0 <= i < rows.len() ==> remittance_fields(recs[i], #[trigger] rows[i], read_f64)
}

impl SherlockGraph {
    /// Records the transaction of every remittance row, in order.
    pub fn add_remittance_rows(&mut self, rows: &Vec<RemittanceRow>)
        requires
            old(self).wf(),
        ensures
            final(self).wf(),
            final(self)@ == spec_add_rows(old(self)@, remittance_transactions(rows@)),
    {
        let mut i: usize = 0;
        while i < rows.len()
            invariant
                0 <= i <= rows.len(),
                self.wf(),
                self@ == spec_add_rows(old(self)@, remittance_transactions(rows@.take(i as int))),
            decreases rows.len() - i,
        {
            let r = &rows[i];
            proof {
                assert(remittance_transactions(rows@.take(i + 1)).drop_last() =~= remittance_transactions(rows@.take(i as int)));
                assert(remittance_transactions(rows@.take(i + 1)).last() == remittance_transaction(*r));
            }
            if !r.sender_id.as_str().is_empty() && !r.beneficary_account_no.as_str().is_empty() {
                let source = prefixed("SND:", &r.sender_id);
                let target = prefixed("BNF:", &r.beneficary_account_no);
                self.add_transaction(EntityType::Account(source), EntityType::Account(target), r.amount_bits, r.created_on);
            }
            i += 1;
        }
        proof {
            assert(rows@.take(rows@.len() as int) =~= rows@);
        }
    }

    /// Loads remittances: an edge from `SND:<sender_id>` to `BNF:<beneficary_account_no>` weighted by the amount.
    /// The text is given as its lines, the header first; rows with an empty name are skipped.
    /// Returns the number of rows read.
    pub fn load_remittance<F: Fn(&String) -> u64>(&mut self, lines: &Vec<String>, read_f64: &F) -> (n: usize)
        requires
            old(self).wf(),
            forall|x: &String| read_f64.requires((x,)),
        ensures
            final(self).wf(),
            exists|rows: Seq<RemittanceRow>| #[trigger] parsed_remittance(lines@, *read_f64, rows)
                && final(self)@ == spec_add_rows(old(self)@, remittance_transactions(rows))
                && n == rows.len(),
    {
        let rows = parse_remittance(lines, read_f64);
        self.add_remittance_rows(&rows);
        proof {
            assert(parsed_remittance(lines@, *read_f64, rows@));
        }
        rows.len()
    }
}

/// The transaction that a disbursements row yields: none when either name is empty.
pub open spec fn disbursements_transaction(r: DisbursementRow) -> Option<NamedTransaction> {
    if r.source_account_id@.len() > 0 && r.destination_account_id@.len() > 0 {
        Some(("SRC:"@ + r.source_account_id@, "DST:"@ + r.destination_account_id@, r.amount_bits, r.created_on))
    } else {
        None
    }
}

pub open spec fn disbursements_transactions(rows: Seq<DisbursementRow>) -> Seq<Option<NamedTransaction>> {
    rows.map_values(|r: DisbursementRow| disbursements_transaction(r))
}

/// `rows` are the rows that `parse_disbursements` reads from `lines`.
pub open spec fn parsed_disbursements<F: Fn(&String) -> u64>(lines: Seq<String>, read_f64: F, rows: Seq<DisbursementRow>) -> bool {
    let recs = long_records(csv_records(string_views(lines)), 14);
    &&& rows.len() == recs.len()
    &&& forall|i: int| 0 <= i < rows.len() ==> disbursements_fields(recs[i], #[trigger] rows[i], read_f64)
}

impl SherlockGraph {
    /// Records the transaction of every disbursements row, in order.
    pub fn add_disbursements_rows(&mut self, rows: &Vec<DisbursementRow>)
        requires
            old(self).wf(),
        ensures
            final(self).wf(),
            final(self)@ == spec_add_rows(old(self)@, disbursements_transactions(rows@)),
    {
        let mut i: usize = 0;
        while i < rows.len()
            invariant
                0 <= i <= rows.len(),
                self.wf(),
                self@ == spec_add_rows(old(self)@, disbursements_transactions(rows@.take(i as int))),
            decreases rows.len() - i,
        {
            let r = &rows[i];
            proof {
                assert(disbursements_transactions(rows@.take(i + 1)).drop_last() =~= disbursements_transactions(rows@.take(i as int)));
                assert(disbursements_transactions(rows@.take(i + 1)).last() == disbursements_transaction(*r));
            }
            if !r.source_account_id.as_str().is_empty() && !r.destination_account_id.as_str().is_empty() {
                let source = prefixed("SRC:", &r.source_account_id);
                let target = prefixed("DST:", &r.destination_account_id);
                self.add_transaction(EntityType::Account(source), EntityType::Account(target), r.amount_bits, r.created_on);
            }
            i += 1;
        }
        proof {
            assert(rows@.take(rows@.len() as int) =~= rows@);
        }
    }

    /// Loads disbursements: an edge from `SRC:<source_account_id>` to `DST:<destination_account_id>` weighted by the amount.
    /// The text is given as its lines, the header first; rows with an empty name are skipped.
    /// Returns the number of rows read.
    pub fn load_disbursements<F: Fn(&String) -> u64>(&mut self, lines: &Vec<String>, read_f64: &F) -> (n: usize)
        requires
            old(self).wf(),
            forall|x: &String| read_f64.requires((x,)),
        ensures
            final(self).wf(),
            exists|rows: Seq<DisbursementRow>| #[trigger] parsed_disbursements(lines@, *read_f64, rows)
                && final(self)@ == spec_add_rows(old(self)@, disbursements_transactions(rows))
                && n == rows.len(),
    {
        let rows = parse_disbursements(lines, read_f64);
        self.add_disbursements_rows(&rows);
        proof {
            assert(parsed_disbursements(lines@, *read_f64, rows@));
        }
        rows.len()
    }
}

/// The transaction that a unified transactions row yields: none when either name is empty.
pub open spec fn unified_transactions_transaction(r: TransactionRow) -> Option<NamedTransaction> {
    if r.user_id@.len() > 0 && r.counterparty_id@.len() > 0 {
        Some(("USR:"@ + r.user_id@, "CP:"@ + r.counterparty_id@, r.amount_bits, r.timestamp))
    } else {
        None
    }
}

pub open spec fn unified_transactions_transactions(rows: Seq<TransactionRow>) -> Seq<Option<NamedTransaction>> {
    rows.map_values(|r: TransactionRow| unified_transactions_transaction(r))
}

/// `rows` are the rows that `parse_unified_transactions` reads from `lines`.
pub open spec fn parsed_unified_transactions<F: Fn(&String) -> u64>(lines: Seq<String>, read_f64: F, rows: Seq<TransactionRow>) -> bool {
    let recs = long_records(csv_records(string_views(lines)), 11);
    &&& rows.len() == recs.len()
    &&& forall|i: int| 0 <= i < rows.len() ==> unified_transactions_fields(recs[i], #[trigger] rows[i], read_f64)
}

impl SherlockGraph {
    /// Records the transaction of every unified transactions row, in order.
    pub fn add_unified_transactions_rows(&mut self, rows: &Vec<TransactionRow>)
        requires
            old(self).wf(),
        ensures
            final(self).wf(),
            final(self)@ == spec_add_rows(old(self)@, unified_transactions_transactions(rows@)),
    {
        let mut i: usize = 0;
        while i < rows.len()
            invariant
                0 <= i <= rows.len(),
                self.wf(),
                self@ == spec_add_rows(old(self)@, unified_transactions_transactions(rows@.take(i as int))),
            decreases rows.len() - i,
        {
            let r = &rows[i];
            proof {
                assert(unified_transactions_transactions(rows@.take(i + 1)).drop_last() =~= unified_transactions_transactions(rows@.take(i as int)));
                assert(unified_transactions_transactions(rows@.take(i + 1)).last() == unified_transactions_transaction(*r));
            }
            if !r.user_id.as_str().is_empty() && !r.counterparty_id.as_str().is_empty() {
                let source = prefixed("USR:", &r.user_id);
                let target = prefixed("CP:", &r.counterparty_id);
                self.add_transaction(EntityType::Account(source), EntityType::Account(target), r.amount_bits, r.timestamp);
            }
            i += 1;
        }
        proof {
            assert(rows@.take(rows@.len() as int) =~= rows@);
        }
    }

    /// Loads the unified transaction format: an edge from `USR:<user_id>` to `CP:<counterparty_id>` weighted by the amount.
    /// The text is given as its lines, the header first; rows with an empty name are skipped.
    /// Returns the number of rows read.
    pub fn load_unified_transactions<F: Fn(&String) -> u64>(&mut self, lines: &Vec<String>, read_f64: &F) -> (n: usize)
        requires
            old(self).wf(),
            forall|x: &String| read_f64.requires((x,)),
        ensures
            final(self).wf(),
            exists|rows: Seq<TransactionRow>| #[trigger] parsed_unified_transactions(lines@, *read_f64, rows)
                && final(self)@ == spec_add_rows(old(self)@, unified_transactions_transactions(rows))
                && n == rows.len(),
    {
        let rows = parse_unified_transactions(lines, read_f64);
        self.add_unified_transactions_rows(&rows);
        proof {
            assert(parsed_unified_transactions(lines@, *read_f64, rows@));
        }
        rows.len()
    }
}

/// Loading one more wallet history row: when its `user_id` and `transaction_id` are both non-empty it adds
/// one edge from the node `USR:`+user_id to the node `TX:`+transaction_id, carrying the absolute value of its transaction effect (the sign bit cleared)
/// and its `created_on`; otherwise the graph is left as it was.
pub proof fn law_wallet_history_row_edge(v: GraphView, rows: Seq<WalletHistoryRow>, r: WalletHistoryRow)
    requires
        view_wf(v),
    ensures
        ({
            let before = spec_add_rows(v, wallet_history_transactions(rows));
            let after = spec_add_rows(v, wallet_history_transactions(rows.push(r)));
            if r.user_id@.len() > 0 && r.transaction_id@.len() > 0 {
                adds_edge(before, after, "USR:"@ + r.user_id@, "TX:"@ + r.transaction_id@, r.transaction_effect_bits & 0x7fff_ffff_ffff_ffffu64, r.created_on)
            } else {
                after == before
            }
        }),
{
    let before = spec_add_rows(v, wallet_history_transactions(rows));
    assert(wallet_history_transactions(rows.push(r)) =~= wallet_history_transactions(rows).push(wallet_history_transaction(r)));
    lemma_add_rows_push(v, wallet_history_transactions(rows), wallet_history_transaction(r));
    law_rows_add_one_edge_each(v, wallet_history_transactions(rows));
    if r.user_id@.len() > 0 && r.transaction_id@.len() > 0 {
        lemma_add_transaction_adds_edge(before, "USR:"@ + r.user_id@, "TX:"@ + r.transaction_id@, r.transaction_effect_bits & 0x7fff_ffff_ffff_ffffu64, r.created_on);
    }
}

/// Loading one more qr transactions row: when its `acquiree_id` and `issuee_id` are both non-empty it adds
/// one edge from the node `ACQ:`+acquiree_id to the node `ISS:`+issuee_id, carrying its amount
/// and its `created_on`; otherwise the graph is left as it was.
pub proof fn law_qr_transactions_row_edge(v: GraphView, rows: Seq<QrTransactionRow>, r: QrTransactionRow)
    requires
        view_wf(v),
    ensures
        ({
            let before = spec_add_rows(v, qr_transactions_transactions(rows));
            let after = spec_add_rows(v, qr_transactions_transactions(rows.push(r)));
            if r.acquiree_id@.len() > 0 && r.issuee_id@.len() > 0 {
                adds_edge(before, after, "ACQ:"@ + r.acquiree_id@, "ISS:"@ + r.issuee_id@, r.amount_bits, r.created_on)
            } else {
                after == before
            }
        }),
{
    let before = spec_add_rows(v, qr_transactions_transactions(rows));
    assert(qr_transactions_transactions(rows.push(r)) =~= qr_transactions_transactions(rows).push(qr_transactions_transaction(r)));
    lemma_add_rows_push(v, qr_transactions_transactions(rows), qr_transactions_transaction(r));
    law_rows_add_one_edge_each(v, qr_transactions_transactions(rows));
    if r.acquiree_id@.len() > 0 && r.issuee_id@.len() > 0 {
        lemma_add_transaction_adds_edge(before, "ACQ:"@ + r.acquiree_id@, "ISS:"@ + r.issuee_id@, r.amount_bits, r.created_on);
    }
}

/// Loading one more service payments row: when its `user_id` and `service_id` are both non-empty it adds
/// one edge from the node `USR:`+user_id to the node `SVC:`+service_id, carrying its amount
/// and its `created_on`; otherwise the graph is left as it was.
pub proof fn law_service_payments_row_edge(v: GraphView, rows: Seq<ServicePaymentRow>, r: ServicePaymentRow)
    requires
        view_wf(v),
    ensures
        ({
            let before = spec_add_rows(v, service_payments_transactions(rows));
            let after = spec_add_rows(v, service_payments_transactions(rows.push(r)));
            if r.user_id@.len() > 0 && r.service_id@.len() > 0 {
                adds_edge(before, after, "USR:"@ + r.user_id@, "SVC:"@ + r.service_id@, r.amount_bits, r.created_on)
            } else {
                after == before
            }
        }),
{
    let before = spec_add_rows(v, service_payments_transactions(rows));
    assert(service_payments_transactions(rows.push(r)) =~= service_payments_transactions(rows).push(service_payments_transaction(r)));
    lemma_add_rows_push(v, service_payments_transactions(rows), service_payments_transaction(r));
    law_rows_add_one_edge_each(v, service_payments_transactions(rows));
    if r.user_id@.len() > 0 && r.service_id@.len() > 0 {
        lemma_add_transaction_adds_edge(before, "USR:"@ + r.user_id@, "SVC:"@ + r.service_id@, r.amount_bits, r.created_on);
    }
}

/// Loading one more remittance row: when its `sender_id` and `beneficary_account_no` are both non-empty it adds
/// one edge from the node `SND:`+sender_id to the node `BNF:`+beneficary_account_no, carrying its amount
/// and its `created_on`; otherwise the graph is left as it was.
pub proof fn law_remittance_row_edge(v: GraphView, rows: Seq<RemittanceRow>, r: RemittanceRow)
    requires
        view_wf(v),
    ensures
        ({
            let before = spec_add_rows(v, remittance_transactions(rows));
            let after = spec_add_rows(v, remittance_transactions(rows.push(r)));
            if r.sender_id@.len() > 0 && r.beneficary_account_no@.len() > 0 {
                adds_edge(before, after, "SND:"@ + r.sender_id@, "BNF:"@ + r.beneficary_account_no@, r.amount_bits, r.created_on)
            } else {
                after == before
            }
        }),
{
    let before = spec_add_rows(v, remittance_transactions(rows));
    assert(remittance_transactions(rows.push(r)) =~= remittance_transactions(rows).push(remittance_transaction(r)));
    lemma_add_rows_push(v, remittance_transactions(rows), remittance_transaction(r));
    law_rows_add_one_edge_each(v, remittance_transactions(rows));
    if r.sender_id@.len() > 0 && r.beneficary_account_no@.len() > 0 {
        lemma_add_transaction_adds_edge(before, "SND:"@ + r.sender_id@, "BNF:"@ + r.beneficary_account_no@, r.amount_bits, r.created_on);
    }
}

/// Loading one more disbursements row: when its `source_account_id` and `destination_account_id` are both non-empty it adds
/// one edge from the node `SRC:`+source_account_id to the node `DST:`+destination_account_id, carrying its amount
/// and its `created_on`; otherwise the graph is left as it was.
pub proof fn law_disbursements_row_edge(v: GraphView, rows: Seq<DisbursementRow>, r: DisbursementRow)
    requires
        view_wf(v),
    ensures
        ({
            let before = spec_add_rows(v, disbursements_transactions(rows));
            let after = spec_add_rows(v, disbursements_transactions(rows.push(r)));
            if r.source_account_id@.len() > 0 && r.destination_account_id@.len() > 0 {
                adds_edge(before, after, "SRC:"@ + r.source_account_id@, "DST:"@ + r.destination_account_id@, r.amount_bits, r.created_on)
            } else {
                after == before
            }
        }),
{
    let before = spec_add_rows(v, disbursements_transactions(rows));
    assert(disbursements_transactions(rows.push(r)) =~= disbursements_transactions(rows).push(disbursements_transaction(r)));
    lemma_add_rows_push(v, disbursements_transactions(rows), disbursements_transaction(r));
    law_rows_add_one_edge_each(v, disbursements_transactions(rows));
    if r.source_account_id@.len() > 0 && r.destination_account_id@.len() > 0 {
        lemma_add_transaction_adds_edge(before, "SRC:"@ + r.source_account_id@, "DST:"@ + r.destination_account_id@, r.amount_bits, r.created_on);
    }
}

/// Loading one more unified transactions row: when its `user_id` and `counterparty_id` are both non-empty it adds
/// one edge from the node `USR:`+user_id to the node `CP:`+counterparty_id, carrying its amount
/// and its `timestamp`; otherwise the graph is left as it was.
pub proof fn law_unified_transactions_row_edge(v: GraphView, rows: Seq<TransactionRow>, r: TransactionRow)
    requires
        view_wf(v),
    ensures
        ({
            let before = spec_add_rows(v, unified_transactions_transactions(rows));
            let after = spec_add_rows(v, unified_transactions_transactions(rows.push(r)));
            if r.user_id@.len() > 0 && r.counterparty_id@.len() > 0 {
                adds_edge(before, after, "USR:"@ + r.user_id@, "CP:"@ + r.counterparty_id@, r.amount_bits, r.timestamp)
            } else {
                after == before
            }
        }),
{
    let before = spec_add_rows(v, unified_transactions_transactions(rows));
    assert(unified_transactions_transactions(rows.push(r)) =~= unified_transactions_transactions(rows).push(unified_transactions_transaction(r)));
    lemma_add_rows_push(v, unified_transactions_transactions(rows), unified_transactions_transaction(r));
    law_rows_add_one_edge_each(v, unified_transactions_transactions(rows));
    if r.user_id@.len() > 0 && r.counterparty_id@.len() > 0 {
        lemma_add_transaction_adds_edge(before, "USR:"@ + r.user_id@, "CP:"@ + r.counterparty_id@, r.amount_bits, r.timestamp);
    }
}

/// Parsing wallet history lines keeps exactly the records of at least 17 fields, in order,
/// and reads the `i`-th row from the `i`-th of them.
pub proof fn law_wallet_history_rows_from_long_records<F: Fn(&String) -> u64>(lines: Seq<String>, read: F, rows: Seq<WalletHistoryRow>)
    requires
        parsed_wallet_history(lines, read, rows),
    ensures
        rows.len() == long_records(csv_records(string_views(lines)), 17).len(),
        forall|i: int| 0 <= i < rows.len() ==> long_records(csv_records(string_views(lines)), 17)[i].len() >= 17
            && wallet_history_fields(long_records(csv_records(string_views(lines)), 17)[i], #[trigger] rows[i], read),
{
    lemma_long_records_len(csv_records(string_views(lines)), 17);
}

/// Parsing qr transactions lines keeps exactly the records of at least 34 fields, in order,
/// and reads the `i`-th row from the `i`-th of them.
pub proof fn law_qr_transactions_rows_from_long_records<F: Fn(&String) -> u64>(lines: Seq<String>, read: F, rows: Seq<QrTransactionRow>)
    requires
        parsed_qr_transactions(lines, read, rows),
    ensures
        rows.len() == long_records(csv_records(string_views(lines)), 34).len(),
        forall|i: int| 0 <= i < rows.len() ==> long_records(csv_records(string_views(lines)), 34)[i].len() >= 34
            && qr_transactions_fields(long_records(csv_records(string_views(lines)), 34)[i], #[trigger] rows[i], read),
{
    lemma_long_records_len(csv_records(string_views(lines)), 34);
}

/// Parsing service payments lines keeps exactly the records of at least 16 fields, in order,
/// and reads the `i`-th row from the `i`-th of them.
pub proof fn law_service_payments_rows_from_long_records<F: Fn(&String) -> u64>(lines: Seq<String>, read: F, rows: Seq<ServicePaymentRow>)
    requires
        parsed_service_payments(lines, read, rows),
    ensures
        rows.len() == long_records(csv_records(string_views(lines)), 16).len(),
        forall|i: int| 0 <= i < rows.len() ==> long_records(csv_records(string_views(lines)), 16)[i].len() >= 16
            && service_payments_fields(long_records(csv_records(string_views(lines)), 16)[i], #[trigger] rows[i], read),
{
    lemma_long_records_len(csv_records(string_views(lines)), 16);
}

/// Parsing remittance lines keeps exactly the records of at least 41 fields, in order,
/// and reads the `i`-th row from the `i`-th of them.
pub proof fn law_remittance_rows_from_long_records<F: Fn(&String) -> u64>(lines: Seq<String>, read: F, rows: Seq<RemittanceRow>)
    requires
        parsed_remittance(lines, read, rows),
    ensures
        rows.len() == long_records(csv_records(string_views(lines)), 41).len(),
        forall|i: int| 0 <= i < rows.len() ==> long_records(csv_records(string_views(lines)), 41)[i].len() >= 41
            && remittance_fields(long_records(csv_records(string_views(lines)), 41)[i], #[trigger] rows[i], read),
{
    lemma_long_records_len(csv_records(string_views(lines)), 41);
}

/// Parsing disbursements lines keeps exactly the records of at least 14 fields, in order,
/// and reads the `i`-th row from the `i`-th of them.
pub proof fn law_disbursements_rows_from_long_records<F: Fn(&String) -> u64>(lines: Seq<String>, read: F, rows: Seq<DisbursementRow>)
    requires
        parsed_disbursements(lines, read, rows),
    ensures
        rows.len() == long_records(csv_records(string_views(lines)), 14).len(),
        forall|i: int| 0 <= i < rows.len() ==> long_records(csv_records(string_views(lines)), 14)[i].len() >= 14
            && disbursements_fields(long_records(csv_records(string_views(lines)), 14)[i], #[trigger] rows[i], read),
{
    lemma_long_records_len(csv_records(string_views(lines)), 14);
}

/// Parsing unified transactions lines keeps exactly the records of at least 11 fields, in order,
/// and reads the `i`-th row from the `i`-th of them.
pub proof fn law_unified_transactions_rows_from_long_records<F: Fn(&String) -> u64>(lines: Seq<String>, read: F, rows: Seq<TransactionRow>)
    requires
        parsed_unified_transactions(lines, read, rows),
    ensures
        rows.len() == long_records(csv_records(string_views(lines)), 11).len(),
        forall|i: int| 0 <= i < rows.len() ==> long_records(csv_records(string_views(lines)), 11)[i].len() >= 11
            && unified_transactions_fields(long_records(csv_records(string_views(lines)), 11)[i], #[trigger] rows[i], read),
{
    lemma_long_records_len(csv_records(string_views(lines)), 11);
}

} // verus!
