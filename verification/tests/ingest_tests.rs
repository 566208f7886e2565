use sherlock_graph::rows::{
    parse_disbursements, parse_qr_transactions, parse_remittance, parse_service_payments,
    parse_unified_transactions, parse_wallet_history, unified_transactions_row,
};
use sherlock_graph::summary::edge_count;
use sherlock_graph::types::{EntityType, SherlockGraph};

fn read_f64(t: &String) -> u64 {
    t.trim().parse::<f64>().unwrap_or(0.0).to_bits()
}

fn lines(v: &[&str]) -> Vec<String> {
    v.iter().map(|x| x.to_string()).collect()
}

fn row(n: usize, set: &[(usize, &str)]) -> String {
    let mut f: Vec<String> = vec!["0".to_string(); n];
    for (i, v) in set {
        f[*i] = v.to_string();
    }
    f.join(",")
}

fn names(g: &SherlockGraph) -> Vec<String> {
    g.nodes.iter().map(|n| n.entity.as_str().to_string()).collect()
}

const UNIFIED_HEADER: &str =
    "user_id,counterparty_id,amount,timestamp,qr_status,qr_purpose,disb_type,remit_type,auth_action,device_id,is_burst";

#[test]
fn unified_row_reads_every_column() {
    let ls = lines(&[UNIFIED_HEADER, " u1 , c9 , 12.5 , 1700 ,OK,gift,none,intl,login,dev-1,TRUE"]);
    let rows = parse_unified_transactions(&ls, &read_f64);
    assert_eq!(rows.len(), 1);
    let r = &rows[0];
    assert_eq!((r.user_id.as_str(), r.counterparty_id.as_str()), ("u1", "c9"));
    assert_eq!(f64::from_bits(r.amount_bits), 12.5);
    assert_eq!(r.timestamp, 1700);
    assert_eq!(
        (r.qr_status.as_str(), r.qr_purpose.as_str(), r.disb_type.as_str(), r.remit_type.as_str()),
        ("OK", "gift", "none", "intl")
    );
    assert_eq!((r.auth_action.as_str(), r.device_id.as_str(), r.is_burst), ("login", "dev-1", true));
}

#[test]
fn unified_short_rows_are_dropped() {
    let ls = lines(&[UNIFIED_HEADER, "a,b,1,2,x,x,x,x,x,x", "a,b,x,y,,,,,,,0,extra"]);
    let rows = parse_unified_transactions(&ls, &read_f64);
    assert_eq!(rows.len(), 1);
    assert_eq!(rows[0].amount_bits, 0.0f64.to_bits());
    assert_eq!(rows[0].timestamp, 0);
    assert!(!rows[0].is_burst);
}

#[test]
fn unified_row_of_short_field_list_is_none() {
    let f: Vec<String> = lines(&["a", "b"]);
    assert!(unified_transactions_row(&f, &read_f64).is_none());
}

#[test]
fn load_unified_builds_prefixed_nodes_and_edges() {
    let ls = lines(&[
        UNIFIED_HEADER,
        "u1,c1,10,100,,,,,,,0",
        "u1,c2,20,200,,,,,,,0",
        ",c3,30,300,,,,,,,0",
        "u2,u1,5,400,,,,,,,0",
    ]);
    let mut g = SherlockGraph::new();
    let n = g.load_unified_transactions(&ls, &read_f64);
    assert_eq!(n, 4);
    assert_eq!(names(&g), vec!["USR:u1", "CP:c1", "CP:c2", "USR:u2", "CP:u1"]);
    assert_eq!(edge_count(&g), 3);
    assert_eq!(g.adj_list[0].iter().map(|e| e.target_idx).collect::<Vec<_>>(), vec![1, 2]);
    assert_eq!(g.adj_list[3][0].target_idx, 4);
    assert_eq!(f64::from_bits(g.adj_list[0][1].amount_bits), 20.0);
    assert_eq!(g.adj_list[3][0].created_on, 400);
}

#[test]
fn wallet_history_edge_weight_is_absolute_effect() {
    let ls = lines(&[
        "header",
        &row(17, &[(2, "55"), (8, "-12.25"), (9, "T1"), (10, "U1"), (16, "true")]),
        &row(17, &[(8, "3"), (9, ""), (10, "U2")]),
        &row(16, &[(9, "T9"), (10, "U9")]),
    ]);
    let rows = parse_wallet_history(&ls, &read_f64);
    assert_eq!(rows.len(), 2);
    assert_eq!(f64::from_bits(rows[0].transaction_effect_bits), -12.25);
    assert!(rows[0].is_anomaly);
    let mut g = SherlockGraph::new();
    assert_eq!(g.load_wallet_history(&ls, &read_f64), 2);
    assert_eq!(names(&g), vec!["USR:U1", "TX:T1"]);
    let e = g.adj_list[0][0];
    assert_eq!((e.target_idx, f64::from_bits(e.amount_bits), e.created_on), (1, 12.25, 55));
}

#[test]
fn qr_transactions_link_acquiree_to_issuee() {
    let rows_text: Vec<String> = vec!["h".to_string(), row(34, &[(2, "9"), (10, "7.5")])];
    let parsed = parse_qr_transactions(&rows_text, &read_f64);
    assert_eq!(parsed.len(), 1);
    assert_eq!(f64::from_bits(parsed[0].amount_bits), 7.5);
    let acq = parsed[0].acquiree_id.clone();
    let iss = parsed[0].issuee_id.clone();
    let mut g = SherlockGraph::new();
    assert_eq!(g.load_qr_transactions(&rows_text, &read_f64), 1);
    assert_eq!(names(&g), vec![format!("ACQ:{acq}"), format!("ISS:{iss}")]);
    assert_eq!(g.adj_list[0][0].created_on, 9);
}

#[test]
fn service_payments_link_user_to_service() {
    let ls = vec!["h".to_string(), row(16, &[(6, "4"), (9, "S1"), (10, "U1"), (12, "3")])];
    let parsed = parse_service_payments(&ls, &read_f64);
    assert_eq!(parsed.len(), 1);
    assert_eq!(parsed[0].max_tries, 3);
    let mut g = SherlockGraph::new();
    g.load_service_payments(&ls, &read_f64);
    assert_eq!(names(&g), vec!["USR:U1", "SVC:S1"]);
    assert_eq!(f64::from_bits(g.adj_list[0][0].amount_bits), 4.0);
}

#[test]
fn remittance_links_sender_to_beneficiary_account() {
    let ls = vec!["h".to_string(), row(41, &[])];
    let parsed = parse_remittance(&ls, &read_f64);
    assert_eq!(parsed.len(), 1);
    let snd = parsed[0].sender_id.clone();
    let bnf = parsed[0].beneficary_account_no.clone();
    let mut g = SherlockGraph::new();
    assert_eq!(g.load_remittance(&ls, &read_f64), 1);
    assert_eq!(names(&g), vec![format!("SND:{snd}"), format!("BNF:{bnf}")]);
}

#[test]
fn disbursements_link_source_to_destination() {
    let ls = vec!["h".to_string(), row(14, &[(5, "100"), (10, "D1"), (11, "S1")]), row(13, &[])];
    let parsed = parse_disbursements(&ls, &read_f64);
    assert_eq!(parsed.len(), 1);
    let mut g = SherlockGraph::new();
    assert_eq!(g.load_disbursements(&ls, &read_f64), 1);
    assert_eq!(names(&g), vec!["SRC:S1", "DST:D1"]);
    assert_eq!(f64::from_bits(g.adj_list[0][0].amount_bits), 100.0);
}

#[test]
fn loading_twice_reuses_nodes_and_doubles_edges() {
    let ls = lines(&[UNIFIED_HEADER, "a,b,1,1,,,,,,,0"]);
    let mut g = SherlockGraph::new();
    g.load_unified_transactions(&ls, &read_f64);
    g.load_unified_transactions(&ls, &read_f64);
    assert_eq!(g.nodes.len(), 2);
    assert_eq!(edge_count(&g), 2);
    assert_eq!(g.add_node(EntityType::Account("USR:a".to_string())), 0);
}
