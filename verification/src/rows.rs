use vstd::prelude::*;
use crate::csv::{csv_records, field_bool, field_unsigned, parse_bool, parse_u32, parse_u64, read_csv_lines, record_views, s, string_views, trimmed};

verus! {

/// `bits` is what `read` returns for some text equal to `text`.
pub open spec fn reads_as<F: Fn(&String) -> u64>(read: F, text: Seq<char>, bits: u64) -> bool {
    exists|x: String| x@ == text && #[trigger] call_ensures(read, (&x,), bits)
}

/// The records that have at least `n` fields, in order.
pub open spec fn long_records(recs: Seq<Seq<Seq<char>>>, n: int) -> Seq<Seq<Seq<char>>>
    decreases recs.len(),
{
    if recs.len() == 0 {
        Seq::empty()
    } else {
        long_records(recs.drop_last(), n) + (if recs.last().len() >= n { seq![recs.last()] } else { Seq::empty() })
    }
}

/// One of the wallet_history rows; floating-point columns are held as `f64` bit patterns.
#[derive(Debug, Clone, PartialEq)]
pub struct WalletHistoryRow {
    pub id: String,
    pub idx: u64,
    pub created_on: u64,
    pub modified_on: u64,
    pub is_obsolete: bool,
    pub balance_bits: u64,
    pub secondary_balance_bits: u64,
    pub hold_balance_bits: u64,
    pub transaction_effect_bits: u64,
    pub transaction_id: String,
    pub user_id: String,
    pub lien_amount_bits: u64,
    pub created_on_np_date: String,
    pub primary_transaction_effect_bits: u64,
    pub secondary_transaction_effect_bits: u64,
    pub tx_type: String,
    pub is_anomaly: bool,
}

/// `r` is the row read from the fields `f`: text columns trimmed, integer and flag
/// columns read as such, floating-point columns as `read` gives them.
pub open spec fn wallet_history_fields<F: Fn(&String) -> u64>(f: Seq<Seq<char>>, r: WalletHistoryRow, read: F) -> bool {
    &&& r.id@ == trimmed(f[0])
    &&& r.idx == field_unsigned(f[1], u64::MAX as nat)
    &&& r.created_on == field_unsigned(f[2], u64::MAX as nat)
    &&& r.modified_on == field_unsigned(f[3], u64::MAX as nat)
    &&& r.is_obsolete == field_bool(f[4])
    &&& reads_as(read, f[5], r.balance_bits)
    &&& reads_as(read, f[6], r.secondary_balance_bits)
    &&& reads_as(read, f[7], r.hold_balance_bits)
    &&& reads_as(read, f[8], r.transaction_effect_bits)
    &&& r.transaction_id@ == trimmed(f[9])
    &&& r.user_id@ == trimmed(f[10])
    &&& reads_as(read, f[11], r.lien_amount_bits)
    &&& r.created_on_np_date@ == trimmed(f[12])
    &&& reads_as(read, f[13], r.primary_transaction_effect_bits)
    &&& reads_as(read, f[14], r.secondary_transaction_effect_bits)
    &&& r.tx_type@ == trimmed(f[15])
    &&& r.is_anomaly == field_bool(f[16])
}

/// Reads one record as a row; a record with fewer than 17 fields is none.
pub fn wallet_history_row<F: Fn(&String) -> u64>(f: &Vec<String>, read_f64: &F) -> (r: Option<WalletHistoryRow>)
    requires
        forall|x: &String| read_f64.requires((x,)),
    ensures
        r is Some <==> f@.len() >= 17,
        r matches Some(row) ==> wallet_history_fields(string_views(f@), row, *read_f64),
{
    if f.len() < 17 {
        return None;
    }
    let row = WalletHistoryRow {
        id: s(f[0].as_str()),
        idx: parse_u64(f[1].as_str()),
        created_on: parse_u64(f[2].as_str()),
        modified_on: parse_u64(f[3].as_str()),
        is_obsolete: parse_bool(f[4].as_str()),
        balance_bits: read_f64(&f[5]),
        secondary_balance_bits: read_f64(&f[6]),
        hold_balance_bits: read_f64(&f[7]),
        transaction_effect_bits: read_f64(&f[8]),
        transaction_id: s(f[9].as_str()),
        user_id: s(f[10].as_str()),
        lien_amount_bits: read_f64(&f[11]),
        created_on_np_date: s(f[12].as_str()),
        primary_transaction_effect_bits: read_f64(&f[13]),
        secondary_transaction_effect_bits: read_f64(&f[14]),
        tx_type: s(f[15].as_str()),
        is_anomaly: parse_bool(f[16].as_str()),
    };
    proof {
        let fv = string_views(f@);
        assert(fv[0] == f@[0]@);
        assert(fv[1] == f@[1]@);
        assert(fv[2] == f@[2]@);
        assert(fv[3] == f@[3]@);
        assert(fv[4] == f@[4]@);
        assert(fv[5] == f@[5]@);
        assert(call_ensures(*read_f64, (&f@[5],), row.balance_bits));
        assert(fv[6] == f@[6]@);
        assert(call_ensures(*read_f64, (&f@[6],), row.secondary_balance_bits));
        assert(fv[7] == f@[7]@);
        assert(call_ensures(*read_f64, (&f@[7],), row.hold_balance_bits));
        assert(fv[8] == f@[8]@);
        assert(call_ensures(*read_f64, (&f@[8],), row.transaction_effect_bits));
        assert(fv[9] == f@[9]@);
        assert(fv[10] == f@[10]@);
        assert(fv[11] == f@[11]@);
        assert(call_ensures(*read_f64, (&f@[11],), row.lien_amount_bits));
        assert(fv[12] == f@[12]@);
        assert(fv[13] == f@[13]@);
        assert(call_ensures(*read_f64, (&f@[13],), row.primary_transaction_effect_bits));
        assert(fv[14] == f@[14]@);
        assert(call_ensures(*read_f64, (&f@[14],), row.secondary_transaction_effect_bits));
        assert(fv[15] == f@[15]@);
        assert(fv[16] == f@[16]@);
    }
    Some(row)
}

/// Reads the wallet_history rows of a CSV text given as its lines (header first): every record
/// with at least 17 fields becomes a row, in order; shorter records are dropped.
pub fn parse_wallet_history<F: Fn(&String) -> u64>(lines: &Vec<String>, read_f64: &F) -> (rows: Vec<WalletHistoryRow>)
    requires
        forall|x: &String| read_f64.requires((x,)),
    ensures
        rows@.len() == long_records(csv_records(string_views(lines@)), 17).len(),
        forall|i: int| 0 <= i < rows@.len() ==> wallet_history_fields(long_records(csv_records(string_views(lines@)), 17)[i], #[trigger] rows@[i], *read_f64),
{
    let records = read_csv_lines(lines);
    let ghost recs = record_views(records@);
    let mut rows: Vec<WalletHistoryRow> = Vec::new();
    let mut i: usize = 0;
    while i < records.len()
        invariant
            recs == record_views(records@),
            0 <= i <= records.len(),
            forall|x: &String| read_f64.requires((x,)),
            rows@.len() == long_records(recs.take(i as int), 17).len(),
            forall|j: int| 0 <= j < rows@.len() ==> wallet_history_fields(long_records(recs.take(i as int), 17)[j], #[trigger] rows@[j], *read_f64),
        decreases records.len() - i,
    {
        let ghost before = long_records(recs.take(i as int), 17);
        proof {
            assert(recs.take(i + 1).drop_last() =~= recs.take(i as int));
            assert(recs[i as int] == string_views(records@[i as int]@));
        }
        match wallet_history_row(&records[i], read_f64) {
            Some(row) => {
                rows.push(row);
                proof {
                    let after = long_records(recs.take(i + 1), 17);
                    assert(after =~= before.push(recs[i as int]));
                    assert forall|j: int| 0 <= j < rows@.len() implies wallet_history_fields(after[j], #[trigger] rows@[j], *read_f64) by {
                        if j < before.len() {
                            assert(after[j] == before[j]);
                        }
                    }
                }
            },
            None => {
                proof {
                    assert(long_records(recs.take(i + 1), 17) =~= before);
                }
            },
        }
        i += 1;
    }
    proof {
        assert(recs.take(records@.len() as int) =~= recs);
    }
    rows
}

/// One of the qr_transactions rows; floating-point columns are held as `f64` bit patterns.
#[derive(Debug, Clone, PartialEq)]
pub struct QrTransactionRow {
    pub id: String,
    pub idx: u64,
    pub created_on: u64,
    pub modified_on: u64,
    pub is_obsolete: bool,
    pub mid: String,
    pub midx: u64,
    pub tid: String,
    pub iin: String,
    pub status: String,
    pub amount_bits: u64,
    pub bill_amount_bits: u64,
    pub markup_amount_bits: u64,
    pub settlement_amount_bits: u64,
    pub fee_amount_bits: u64,
    pub remarks: String,
    pub purpose: String,
    pub msg_id: String,
    pub trace_number: String,
    pub device_id: String,
    pub pan: String,
    pub on_us: bool,
    pub bill_number: String,
    pub discount_amount_bits: u64,
    pub source_fee_bits: u64,
    pub destination_fee_bits: u64,
    pub acquiree_id: String,
    pub issuee_id: String,
    pub transaction_id: String,
    pub reference_number: String,
    pub coupon_discount_bits: u64,
    pub currency: String,
    pub created_on_np_date: String,
    pub is_anomaly: bool,
}

/// `r` is the row read from the fields `f`: text columns trimmed, integer and flag
/// columns read as such, floating-point columns as `read` gives them.
pub open spec fn qr_transactions_fields<F: Fn(&String) -> u64>(f: Seq<Seq<char>>, r: QrTransactionRow, read: F) -> bool {
    &&& r.id@ == trimmed(f[0])
    &&& r.idx == field_unsigned(f[1], u64::MAX as nat)
    &&& r.created_on == field_unsigned(f[2], u64::MAX as nat)
    &&& r.modified_on == field_unsigned(f[3], u64::MAX as nat)
    &&& r.is_obsolete == field_bool(f[4])
    &&& r.mid@ == trimmed(f[5])
    &&& r.midx == field_unsigned(f[6], u64::MAX as nat)
    &&& r.tid@ == trimmed(f[7])
    &&& r.iin@ == trimmed(f[8])
    &&& r.status@ == trimmed(f[9])
    &&& reads_as(read, f[10], r.amount_bits)
    &&& reads_as(read, f[11], r.bill_amount_bits)
    &&& reads_as(read, f[12], r.markup_amount_bits)
    &&& reads_as(read, f[13], r.settlement_amount_bits)
    &&& reads_as(read, f[14], r.fee_amount_bits)
    &&& r.remarks@ == trimmed(f[15])
    &&& r.purpose@ == trimmed(f[16])
    &&& r.msg_id@ == trimmed(f[17])
    &&& r.trace_number@ == trimmed(f[18])
    &&& r.device_id@ == trimmed(f[19])
    &&& r.pan@ == trimmed(f[20])
    &&& r.on_us == field_bool(f[21])
    &&& r.bill_number@ == trimmed(f[22])
    &&& reads_as(read, f[23], r.discount_amount_bits)
    &&& reads_as(read, f[24], r.source_fee_bits)
    &&& reads_as(read, f[25], r.destination_fee_bits)
    &&& r.acquiree_id@ == trimmed(f[26])
    &&& r.issuee_id@ == trimmed(f[27])
    &&& r.transaction_id@ == trimmed(f[28])
    &&& r.reference_number@ == trimmed(f[29])
    &&& reads_as(read, f[30], r.coupon_discount_bits)
    &&& r.currency@ == trimmed(f[31])
    &&& r.created_on_np_date@ == trimmed(f[32])
    &&& r.is_anomaly == field_bool(f[33])
}

/// Reads one record as a row; a record with fewer than 34 fields is none.
pub fn qr_transactions_row<F: Fn(&String) -> u64>(f: &Vec<String>, read_f64: &F) -> (r: Option<QrTransactionRow>)
    requires
        forall|x: &String| read_f64.requires((x,)),
    ensures
        r is Some <==> f@.len() >= 34,
        r matches Some(row) ==> qr_transactions_fields(string_views(f@), row, *read_f64),
{
    if f.len() < 34 {
        return None;
    }
    let row = QrTransactionRow {
        id: s(f[0].as_str()),
        idx: parse_u64(f[1].as_str()),
        created_on: parse_u64(f[2].as_str()),
        modified_on: parse_u64(f[3].as_str()),
        is_obsolete: parse_bool(f[4].as_str()),
        mid: s(f[5].as_str()),
        midx: parse_u64(f[6].as_str()),
        tid: s(f[7].as_str()),
        iin: s(f[8].as_str()),
        status: s(f[9].as_str()),
        amount_bits: read_f64(&f[10]),
        bill_amount_bits: read_f64(&f[11]),
        markup_amount_bits: read_f64(&f[12]),
        settlement_amount_bits: read_f64(&f[13]),
        fee_amount_bits: read_f64(&f[14]),
        remarks: s(f[15].as_str()),
        purpose: s(f[16].as_str()),
        msg_id: s(f[17].as_str()),
        trace_number: s(f[18].as_str()),
        device_id: s(f[19].as_str()),
        pan: s(f[20].as_str()),
        on_us: parse_bool(f[21].as_str()),
        bill_number: s(f[22].as_str()),
        discount_amount_bits: read_f64(&f[23]),
        source_fee_bits: read_f64(&f[24]),
        destination_fee_bits: read_f64(&f[25]),
        acquiree_id: s(f[26].as_str()),
        issuee_id: s(f[27].as_str()),
        transaction_id: s(f[28].as_str()),
        reference_number: s(f[29].as_str()),
        coupon_discount_bits: read_f64(&f[30]),
        currency: s(f[31].as_str()),
        created_on_np_date: s(f[32].as_str()),
        is_anomaly: parse_bool(f[33].as_str()),
    };
    proof {
        let fv = string_views(f@);
        assert(fv[0] == f@[0]@);
        assert(fv[1] == f@[1]@);
        assert(fv[2] == f@[2]@);
        assert(fv[3] == f@[3]@);
        assert(fv[4] == f@[4]@);
        assert(fv[5] == f@[5]@);
        assert(fv[6] == f@[6]@);
        assert(fv[7] == f@[7]@);
        assert(fv[8] == f@[8]@);
        assert(fv[9] == f@[9]@);
        assert(fv[10] == f@[10]@);
        assert(call_ensures(*read_f64, (&f@[10],), row.amount_bits));
        assert(fv[11] == f@[11]@);
        assert(call_ensures(*read_f64, (&f@[11],), row.bill_amount_bits));
        assert(fv[12] == f@[12]@);
        assert(call_ensures(*read_f64, (&f@[12],), row.markup_amount_bits));
        assert(fv[13] == f@[13]@);
        assert(call_ensures(*read_f64, (&f@[13],), row.settlement_amount_bits));
        assert(fv[14] == f@[14]@);
        assert(call_ensures(*read_f64, (&f@[14],), row.fee_amount_bits));
        assert(fv[15] == f@[15]@);
        assert(fv[16] == f@[16]@);
        assert(fv[17] == f@[17]@);
        assert(fv[18] == f@[18]@);
        assert(fv[19] == f@[19]@);
        assert(fv[20] == f@[20]@);
        assert(fv[21] == f@[21]@);
        assert(fv[22] == f@[22]@);
        assert(fv[23] == f@[23]@);
        assert(call_ensures(*read_f64, (&f@[23],), row.discount_amount_bits));
        assert(fv[24] == f@[24]@);
        assert(call_ensures(*read_f64, (&f@[24],), row.source_fee_bits));
        assert(fv[25] == f@[25]@);
        assert(call_ensures(*read_f64, (&f@[25],), row.destination_fee_bits));
        assert(fv[26] == f@[26]@);
        assert(fv[27] == f@[27]@);
        assert(fv[28] == f@[28]@);
        assert(fv[29] == f@[29]@);
        assert(fv[30] == f@[30]@);
        assert(call_ensures(*read_f64, (&f@[30],), row.coupon_discount_bits));
        assert(fv[31] == f@[31]@);
        assert(fv[32] == f@[32]@);
        assert(fv[33] == f@[33]@);
    }
    Some(row)
}

/// Reads the qr_transactions rows of a CSV text given as its lines (header first): every record
/// with at least 34 fields becomes a row, in order; shorter records are dropped.
pub fn parse_qr_transactions<F: Fn(&String) -> u64>(lines: &Vec<String>, read_f64: &F) -> (rows: Vec<QrTransactionRow>)
    requires
        forall|x: &String| read_f64.requires((x,)),
    ensures
        rows@.len() == long_records(csv_records(string_views(lines@)), 34).len(),
        forall|i: int| 0 <= i < rows@.len() ==> qr_transactions_fields(long_records(csv_records(string_views(lines@)), 34)[i], #[trigger] rows@[i], *read_f64),
{
    let records = read_csv_lines(lines);
    let ghost recs = record_views(records@);
    let mut rows: Vec<QrTransactionRow> = Vec::new();
    let mut i: usize = 0;
    while i < records.len()
        invariant
            recs == record_views(records@),
            0 <= i <= records.len(),
            forall|x: &String| read_f64.requires((x,)),
            rows@.len() == long_records(recs.take(i as int), 34).len(),
            forall|j: int| 0 <= j < rows@.len() ==> qr_transactions_fields(long_records(recs.take(i as int), 34)[j], #[trigger] rows@[j], *read_f64),
        decreases records.len() - i,
    {
        let ghost before = long_records(recs.take(i as int), 34);
        proof {
            assert(recs.take(i + 1).drop_last() =~= recs.take(i as int));
            assert(recs[i as int] == string_views(records@[i as int]@));
        }
        match qr_transactions_row(&records[i], read_f64) {
            Some(row) => {
                rows.push(row);
                proof {
                    let after = long_records(recs.take(i + 1), 34);
                    assert(after =~= before.push(recs[i as int]));
                    assert forall|j: int| 0 <= j < rows@.len() implies qr_transactions_fields(after[j], #[trigger] rows@[j], *read_f64) by {
                        if j < before.len() {
                            assert(after[j] == before[j]);
                        }
                    }
                }
            },
            None => {
                proof {
                    assert(long_records(recs.take(i + 1), 34) =~= before);
                }
            },
        }
        i += 1;
    }
    proof {
        assert(recs.take(records@.len() as int) =~= recs);
    }
    rows
}

/// One of the service_payments rows; floating-point columns are held as `f64` bit patterns.
#[derive(Debug, Clone, PartialEq)]
pub struct ServicePaymentRow {
    pub id: String,
    pub idx: u64,
    pub created_on: u64,
    pub modified_on: u64,
    pub is_obsolete: bool,
    pub status: String,
    pub amount_bits: u64,
    pub response_id: String,
    pub detail: String,
    pub service_id: String,
    pub user_id: String,
    pub service_charge_bits: u64,
    pub max_tries: u32,
    pub notify_mobile: String,
    pub created_on_np_date: String,
    pub is_anomaly: bool,
}

/// `r` is the row read from the fields `f`: text columns trimmed, integer and flag
/// columns read as such, floating-point columns as `read` gives them.
pub open spec fn service_payments_fields<F: Fn(&String) -> u64>(f: Seq<Seq<char>>, r: ServicePaymentRow, read: F) -> bool {
    &&& r.id@ == trimmed(f[0])
    &&& r.idx == field_unsigned(f[1], u64::MAX as nat)
    &&& r.created_on == field_unsigned(f[2], u64::MAX as nat)
    &&& r.modified_on == field_unsigned(f[3], u64::MAX as nat)
    &&& r.is_obsolete == field_bool(f[4])
    &&& r.status@ == trimmed(f[5])
    &&& reads_as(read, f[6], r.amount_bits)
    &&& r.response_id@ == trimmed(f[7])
    &&& r.detail@ == trimmed(f[8])
    &&& r.service_id@ == trimmed(f[9])
    &&& r.user_id@ == trimmed(f[10])
    &&& reads_as(read, f[11], r.service_charge_bits)
    &&& r.max_tries == field_unsigned(f[12], u32::MAX as nat)
    &&& r.notify_mobile@ == trimmed(f[13])
    &&& r.created_on_np_date@ == trimmed(f[14])
    &&& r.is_anomaly == field_bool(f[15])
}

/// Reads one record as a row; a record with fewer than 16 fields is none.
pub fn service_payments_row<F: Fn(&String) -> u64>(f: &Vec<String>, read_f64: &F) -> (r: Option<ServicePaymentRow>)
    requires
        forall|x: &String| read_f64.requires((x,)),
    ensures
        r is Some <==> f@.len() >= 16,
        r matches Some(row) ==> service_payments_fields(string_views(f@), row, *read_f64),
{
    if f.len() < 16 {
        return None;
    }
    let row = ServicePaymentRow {
        id: s(f[0].as_str()),
        idx: parse_u64(f[1].as_str()),
        created_on: parse_u64(f[2].as_str()),
        modified_on: parse_u64(f[3].as_str()),
        is_obsolete: parse_bool(f[4].as_str()),
        status: s(f[5].as_str()),
        amount_bits: read_f64(&f[6]),
        response_id: s(f[7].as_str()),
        detail: s(f[8].as_str()),
        service_id: s(f[9].as_str()),
        user_id: s(f[10].as_str()),
        service_charge_bits: read_f64(&f[11]),
        max_tries: parse_u32(f[12].as_str()),
        notify_mobile: s(f[13].as_str()),
        created_on_np_date: s(f[14].as_str()),
        is_anomaly: parse_bool(f[15].as_str()),
    };
    proof {
        let fv = string_views(f@);
        assert(fv[0] == f@[0]@);
        assert(fv[1] == f@[1]@);
        assert(fv[2] == f@[2]@);
        assert(fv[3] == f@[3]@);
        assert(fv[4] == f@[4]@);
        assert(fv[5] == f@[5]@);
        assert(fv[6] == f@[6]@);
        assert(call_ensures(*read_f64, (&f@[6],), row.amount_bits));
        assert(fv[7] == f@[7]@);
        assert(fv[8] == f@[8]@);
        assert(fv[9] == f@[9]@);
        assert(fv[10] == f@[10]@);
        assert(fv[11] == f@[11]@);
        assert(call_ensures(*read_f64, (&f@[11],), row.service_charge_bits));
        assert(fv[12] == f@[12]@);
        assert(fv[13] == f@[13]@);
        assert(fv[14] == f@[14]@);
        assert(fv[15] == f@[15]@);
    }
    Some(row)
}

/// Reads the service_payments rows of a CSV text given as its lines (header first): every record
/// with at least 16 fields becomes a row, in order; shorter records are dropped.
pub fn parse_service_payments<F: Fn(&String) -> u64>(lines: &Vec<String>, read_f64: &F) -> (rows: Vec<ServicePaymentRow>)
    requires
        forall|x: &String| read_f64.requires((x,)),
    ensures
        rows@.len() == long_records(csv_records(string_views(lines@)), 16).len(),
        forall|i: int| 0 <= i < rows@.len() ==> service_payments_fields(long_records(csv_records(string_views(lines@)), 16)[i], #[trigger] rows@[i], *read_f64),
{
    let records = read_csv_lines(lines);
    let ghost recs = record_views(records@);
    let mut rows: Vec<ServicePaymentRow> = Vec::new();
    let mut i: usize = 0;
    while i < records.len()
        invariant
            recs == record_views(records@),
            0 <= i <= records.len(),
            forall|x: &String| read_f64.requires((x,)),
            rows@.len() == long_records(recs.take(i as int), 16).len(),
            forall|j: int| 0 <= j < rows@.len() ==> service_payments_fields(long_records(recs.take(i as int), 16)[j], #[trigger] rows@[j], *read_f64),
        decreases records.len() - i,
    {
        let ghost before = long_records(recs.take(i as int), 16);
        proof {
            assert(recs.take(i + 1).drop_last() =~= recs.take(i as int));
            assert(recs[i as int] == string_views(records@[i as int]@));
        }
        match service_payments_row(&records[i], read_f64) {
            Some(row) => {
                rows.push(row);
                proof {
                    let after = long_records(recs.take(i + 1), 16);
                    assert(after =~= before.push(recs[i as int]));
                    assert forall|j: int| 0 <= j < rows@.len() implies service_payments_fields(after[j], #[trigger] rows@[j], *read_f64) by {
                        if j < before.len() {
                            assert(after[j] == before[j]);
                        }
                    }
                }
            },
            None => {
                proof {
                    assert(long_records(recs.take(i + 1), 16) =~= before);
                }
            },
        }
        i += 1;
    }
    proof {
        assert(recs.take(records@.len() as int) =~= recs);
    }
    rows
}

/// One of the remittance rows; floating-point columns are held as `f64` bit patterns.
#[derive(Debug, Clone, PartialEq)]
pub struct RemittanceRow {
    pub id: String,
    pub idx: u64,
    pub created_on: u64,
    pub modified_on: u64,
    pub is_obsolete: bool,
    pub status: String,
    pub beneficary_name: String,
    pub beneficary_country: String,
    pub beneficary_address: String,
    pub beneficary_city: String,
    pub beneficary_mobile: String,
    pub beneficary_id_type: String,
    pub beneficary_id_no: String,
    pub beneficary_account_no: String,
    pub beneficary_bank_name: String,
    pub beneficary_bank_branch: String,
    pub sender_name: String,
    pub sender_country: String,
    pub sender_address: String,
    pub sender_city: String,
    pub sender_mobile: String,
    pub sender_id_type: String,
    pub sender_id_no: String,
    pub purpose: String,
    pub remit_type: String,
    pub local_currency: String,
    pub paying_currency: String,
    pub local_amount_bits: u64,
    pub remit_amount_bits: u64,
    pub amount_bits: u64,
    pub service_charge_bits: u64,
    pub exchange_rate_bits: u64,
    pub relation: String,
    pub control_no: String,
    pub remittance_agent_id: String,
    pub sender_id: String,
    pub third_party_send: bool,
    pub coupon_amount_bits: u64,
    pub from_kpg: bool,
    pub created_on_np_date: String,
    pub is_anomaly: bool,
}

/// `r` is the row read from the fields `f`: text columns trimmed, integer and flag
/// columns read as such, floating-point columns as `read` gives them.
pub open spec fn remittance_fields<F: Fn(&String) -> u64>(f: Seq<Seq<char>>, r: RemittanceRow, read: F) -> bool {
    &&& r.id@ == trimmed(f[0])
    &&& r.idx == field_unsigned(f[1], u64::MAX as nat)
    &&& r.created_on == field_unsigned(f[2], u64::MAX as nat)
    &&& r.modified_on == field_unsigned(f[3], u64::MAX as nat)
    &&& r.is_obsolete == field_bool(f[4])
    &&& r.status@ == trimmed(f[5])
    &&& r.beneficary_name@ == trimmed(f[6])
    &&& r.beneficary_country@ == trimmed(f[7])
    &&& r.beneficary_address@ == trimmed(f[8])
    &&& r.beneficary_city@ == trimmed(f[9])
    &&& r.beneficary_mobile@ == trimmed(f[10])
    &&& r.beneficary_id_type@ == trimmed(f[11])
    &&& r.beneficary_id_no@ == trimmed(f[12])
    &&& r.beneficary_account_no@ == trimmed(f[13])
    &&& r.beneficary_bank_name@ == trimmed(f[14])
    &&& r.beneficary_bank_branch@ == trimmed(f[15])
    &&& r.sender_name@ == trimmed(f[16])
    &&& r.sender_country@ == trimmed(f[17])
    &&& r.sender_address@ == trimmed(f[18])
    &&& r.sender_city@ == trimmed(f[19])
    &&& r.sender_mobile@ == trimmed(f[20])
    &&& r.sender_id_type@ == trimmed(f[21])
    &&& r.sender_id_no@ == trimmed(f[22])
    &&& r.purpose@ == trimmed(f[23])
    &&& r.remit_type@ == trimmed(f[24])
    &&& r.local_currency@ == trimmed(f[25])
    &&& r.paying_currency@ == trimmed(f[26])
    &&& reads_as(read, f[27], r.local_amount_bits)
    &&& reads_as(read, f[28], r.remit_amount_bits)
    &&& reads_as(read, f[29], r.amount_bits)
    &&& reads_as(read, f[30], r.service_charge_bits)
    &&& reads_as(read, f[31], r.exchange_rate_bits)
    &&& r.relation@ == trimmed(f[32])
    &&& r.control_no@ == trimmed(f[33])
    &&& r.remittance_agent_id@ == trimmed(f[34])
    &&& r.sender_id@ == trimmed(f[35])
    &&& r.third_party_send == field_bool(f[36])
    &&& reads_as(read, f[37], r.coupon_amount_bits)
    &&& r.from_kpg == field_bool(f[38])
    &&& r.created_on_np_date@ == trimmed(f[39])
    &&& r.is_anomaly == field_bool(f[40])
}

/// Reads one record as a row; a record with fewer than 41 fields is none.
pub fn remittance_row<F: Fn(&String) -> u64>(f: &Vec<String>, read_f64: &F) -> (r: Option<RemittanceRow>)
    requires
        forall|x: &String| read_f64.requires((x,)),
    ensures
        r is Some <==> f@.len() >= 41,
        r matches Some(row) ==> remittance_fields(string_views(f@), row, *read_f64),
{
    if f.len() < 41 {
        return None;
    }
    let row = RemittanceRow {
        id: s(f[0].as_str()),
        idx: parse_u64(f[1].as_str()),
        created_on: parse_u64(f[2].as_str()),
        modified_on: parse_u64(f[3].as_str()),
        is_obsolete: parse_bool(f[4].as_str()),
        status: s(f[5].as_str()),
        beneficary_name: s(f[6].as_str()),
        beneficary_country: s(f[7].as_str()),
        beneficary_address: s(f[8].as_str()),
        beneficary_city: s(f[9].as_str()),
        beneficary_mobile: s(f[10].as_str()),
        beneficary_id_type: s(f[11].as_str()),
        beneficary_id_no: s(f[12].as_str()),
        beneficary_account_no: s(f[13].as_str()),
        beneficary_bank_name: s(f[14].as_str()),
        beneficary_bank_branch: s(f[15].as_str()),
        sender_name: s(f[16].as_str()),
        sender_country: s(f[17].as_str()),
        sender_address: s(f[18].as_str()),
        sender_city: s(f[19].as_str()),
        sender_mobile: s(f[20].as_str()),
        sender_id_type: s(f[21].as_str()),
        sender_id_no: s(f[22].as_str()),
        purpose: s(f[23].as_str()),
        remit_type: s(f[24].as_str()),
        local_currency: s(f[25].as_str()),
        paying_currency: s(f[26].as_str()),
        local_amount_bits: read_f64(&f[27]),
        remit_amount_bits: read_f64(&f[28]),
        amount_bits: read_f64(&f[29]),
        service_charge_bits: read_f64(&f[30]),
        exchange_rate_bits: read_f64(&f[31]),
        relation: s(f[32].as_str()),
        control_no: s(f[33].as_str()),
        remittance_agent_id: s(f[34].as_str()),
        sender_id: s(f[35].as_str()),
        third_party_send: parse_bool(f[36].as_str()),
        coupon_amount_bits: read_f64(&f[37]),
        from_kpg: parse_bool(f[38].as_str()),
        created_on_np_date: s(f[39].as_str()),
        is_anomaly: parse_bool(f[40].as_str()),
    };
    proof {
        let fv = string_views(f@);
        assert(fv[0] == f@[0]@);
        assert(fv[1] == f@[1]@);
        assert(fv[2] == f@[2]@);
        assert(fv[3] == f@[3]@);
        assert(fv[4] == f@[4]@);
        assert(fv[5] == f@[5]@);
        assert(fv[6] == f@[6]@);
        assert(fv[7] == f@[7]@);
        assert(fv[8] == f@[8]@);
        assert(fv[9] == f@[9]@);
        assert(fv[10] == f@[10]@);
        assert(fv[11] == f@[11]@);
        assert(fv[12] == f@[12]@);
        assert(fv[13] == f@[13]@);
        assert(fv[14] == f@[14]@);
        assert(fv[15] == f@[15]@);
        assert(fv[16] == f@[16]@);
        assert(fv[17] == f@[17]@);
        assert(fv[18] == f@[18]@);
        assert(fv[19] == f@[19]@);
        assert(fv[20] == f@[20]@);
        assert(fv[21] == f@[21]@);
        assert(fv[22] == f@[22]@);
        assert(fv[23] == f@[23]@);
        assert(fv[24] == f@[24]@);
        assert(fv[25] == f@[25]@);
        assert(fv[26] == f@[26]@);
        assert(fv[27] == f@[27]@);
        assert(call_ensures(*read_f64, (&f@[27],), row.local_amount_bits));
        assert(fv[28] == f@[28]@);
        assert(call_ensures(*read_f64, (&f@[28],), row.remit_amount_bits));
        assert(fv[29] == f@[29]@);
        assert(call_ensures(*read_f64, (&f@[29],), row.amount_bits));
        assert(fv[30] == f@[30]@);
        assert(call_ensures(*read_f64, (&f@[30],), row.service_charge_bits));
        assert(fv[31] == f@[31]@);
        assert(call_ensures(*read_f64, (&f@[31],), row.exchange_rate_bits));
        assert(fv[32] == f@[32]@);
        assert(fv[33] == f@[33]@);
        assert(fv[34] == f@[34]@);
        assert(fv[35] == f@[35]@);
        assert(fv[36] == f@[36]@);
        assert(fv[37] == f@[37]@);
        assert(call_ensures(*read_f64, (&f@[37],), row.coupon_amount_bits));
        assert(fv[38] == f@[38]@);
        assert(fv[39] == f@[39]@);
        assert(fv[40] == f@[40]@);
    }
    Some(row)
}

/// Reads the remittance rows of a CSV text given as its lines (header first): every record
/// with at least 41 fields becomes a row, in order; shorter records are dropped.
pub fn parse_remittance<F: Fn(&String) -> u64>(lines: &Vec<String>, read_f64: &F) -> (rows: Vec<RemittanceRow>)
    requires
        forall|x: &String| read_f64.requires((x,)),
    ensures
        rows@.len() == long_records(csv_records(string_views(lines@)), 41).len(),
        forall|i: int| 0 <= i < rows@.len() ==> remittance_fields(long_records(csv_records(string_views(lines@)), 41)[i], #[trigger] rows@[i], *read_f64),
{
    let records = read_csv_lines(lines);
    let ghost recs = record_views(records@);
    let mut rows: Vec<RemittanceRow> = Vec::new();
    let mut i: usize = 0;
    while i < records.len()
        invariant
            recs == record_views(records@),
            0 <= i <= records.len(),
            forall|x: &String| read_f64.requires((x,)),
            rows@.len() == long_records(recs.take(i as int), 41).len(),
            forall|j: int| 0 <= j < rows@.len() ==> remittance_fields(long_records(recs.take(i as int), 41)[j], #[trigger] rows@[j], *read_f64),
        decreases records.len() - i,
    {
        let ghost before = long_records(recs.take(i as int), 41);
        proof {
            assert(recs.take(i + 1).drop_last() =~= recs.take(i as int));
            assert(recs[i as int] == string_views(records@[i as int]@));
        }
        match remittance_row(&records[i], read_f64) {
            Some(row) => {
                rows.push(row);
                proof {
                    let after = long_records(recs.take(i + 1), 41);
                    assert(after =~= before.push(recs[i as int]));
                    assert forall|j: int| 0 <= j < rows@.len() implies remittance_fields(after[j], #[trigger] rows@[j], *read_f64) by {
                        if j < before.len() {
                            assert(after[j] == before[j]);
                        }
                    }
                }
            },
            None => {
                proof {
                    assert(long_records(recs.take(i + 1), 41) =~= before);
                }
            },
        }
        i += 1;
    }
    proof {
        assert(recs.take(records@.len() as int) =~= recs);
    }
    rows
}

/// One of the disbursement rows; floating-point columns are held as `f64` bit patterns.
#[derive(Debug, Clone, PartialEq)]
pub struct DisbursementRow {
    pub id: String,
    pub idx: u64,
    pub created_on: u64,
    pub modified_on: u64,
    pub is_obsolete: bool,
    pub amount_bits: u64,
    pub status: String,
    pub tx_type: String,
    pub remarks: String,
    pub batch_id: String,
    pub destination_account_id: String,
    pub source_account_id: String,
    pub created_on_np_date: String,
    pub is_anomaly: bool,
}

/// `r` is the row read from the fields `f`: text columns trimmed, integer and flag
/// columns read as such, floating-point columns as `read` gives them.
pub open spec fn disbursements_fields<F: Fn(&String) -> u64>(f: Seq<Seq<char>>, r: DisbursementRow, read: F) -> bool {
    &&& r.id@ == trimmed(f[0])
    &&& r.idx == field_unsigned(f[1], u64::MAX as nat)
    &&& r.created_on == field_unsigned(f[2], u64::MAX as nat)
    &&& r.modified_on == field_unsigned(f[3], u64::MAX as nat)
    &&& r.is_obsolete == field_bool(f[4])
    &&& reads_as(read, f[5], r.amount_bits)
    &&& r.status@ == trimmed(f[6])
    &&& r.tx_type@ == trimmed(f[7])
    &&& r.remarks@ == trimmed(f[8])
    &&& r.batch_id@ == trimmed(f[9])
    &&& r.destination_account_id@ == trimmed(f[10])
    &&& r.source_account_id@ == trimmed(f[11])
    &&& r.created_on_np_date@ == trimmed(f[12])
    &&& r.is_anomaly == field_bool(f[13])
}

/// Reads one record as a row; a record with fewer than 14 fields is none.
pub fn disbursements_row<F: Fn(&String) -> u64>(f: &Vec<String>, read_f64: &F) -> (r: Option<DisbursementRow>)
    requires
        forall|x: &String| read_f64.requires((x,)),
    ensures
        r is Some <==> f@.len() >= 14,
        r matches Some(row) ==> disbursements_fields(string_views(f@), row, *read_f64),
{
    if f.len() < 14 {
        return None;
    }
    let row = DisbursementRow {
        id: s(f[0].as_str()),
        idx: parse_u64(f[1].as_str()),
        created_on: parse_u64(f[2].as_str()),
        modified_on: parse_u64(f[3].as_str()),
        is_obsolete: parse_bool(f[4].as_str()),
        amount_bits: read_f64(&f[5]),
        status: s(f[6].as_str()),
        tx_type: s(f[7].as_str()),
        remarks: s(f[8].as_str()),
        batch_id: s(f[9].as_str()),
        destination_account_id: s(f[10].as_str()),
        source_account_id: s(f[11].as_str()),
        created_on_np_date: s(f[12].as_str()),
        is_anomaly: parse_bool(f[13].as_str()),
    };
    proof {
        let fv = string_views(f@);
        assert(fv[0] == f@[0]@);
        assert(fv[1] == f@[1]@);
        assert(fv[2] == f@[2]@);
        assert(fv[3] == f@[3]@);
        assert(fv[4] == f@[4]@);
        assert(fv[5] == f@[5]@);
        assert(call_ensures(*read_f64, (&f@[5],), row.amount_bits));
        assert(fv[6] == f@[6]@);
        assert(fv[7] == f@[7]@);
        assert(fv[8] == f@[8]@);
        assert(fv[9] == f@[9]@);
        assert(fv[10] == f@[10]@);
        assert(fv[11] == f@[11]@);
        assert(fv[12] == f@[12]@);
        assert(fv[13] == f@[13]@);
    }
    Some(row)
}

/// Reads the disbursement rows of a CSV text given as its lines (header first): every record
/// with at least 14 fields becomes a row, in order; shorter records are dropped.
pub fn parse_disbursements<F: Fn(&String) -> u64>(lines: &Vec<String>, read_f64: &F) -> (rows: Vec<DisbursementRow>)
    requires
        forall|x: &String| read_f64.requires((x,)),
    ensures
        rows@.len() == long_records(csv_records(string_views(lines@)), 14).len(),
        forall|i: int| 0 <= i < rows@.len() ==> disbursements_fields(long_records(csv_records(string_views(lines@)), 14)[i], #[trigger] rows@[i], *read_f64),
{
    let records = read_csv_lines(lines);
    let ghost recs = record_views(records@);
    let mut rows: Vec<DisbursementRow> = Vec::new();
    let mut i: usize = 0;
    while i < records.len()
        invariant
            recs == record_views(records@),
            0 <= i <= records.len(),
            forall|x: &String| read_f64.requires((x,)),
            rows@.len() == long_records(recs.take(i as int), 14).len(),
            forall|j: int| 0 <= j < rows@.len() ==> disbursements_fields(long_records(recs.take(i as int), 14)[j], #[trigger] rows@[j], *read_f64),
        decreases records.len() - i,
    {
        let ghost before = long_records(recs.take(i as int), 14);
        proof {
            assert(recs.take(i + 1).drop_last() =~= recs.take(i as int));
            assert(recs[i as int] == string_views(records@[i as int]@));
        }
        match disbursements_row(&records[i], read_f64) {
            Some(row) => {
                rows.push(row);
                proof {
                    let after = long_records(recs.take(i + 1), 14);
                    assert(after =~= before.push(recs[i as int]));
                    assert forall|j: int| 0 <= j < rows@.len() implies disbursements_fields(after[j], #[trigger] rows@[j], *read_f64) by {
                        if j < before.len() {
                            assert(after[j] == before[j]);
                        }
                    }
                }
            },
            None => {
                proof {
                    assert(long_records(recs.take(i + 1), 14) =~= before);
                }
            },
        }
        i += 1;
    }
    proof {
        assert(recs.take(records@.len() as int) =~= recs);
    }
    rows
}

/// One of the unified transaction rows (one CSV for every source); floating-point columns are held as `f64` bit patterns.
#[derive(Debug, Clone, PartialEq)]
pub struct TransactionRow {
    pub user_id: String,
    pub counterparty_id: String,
    pub amount_bits: u64,
    pub timestamp: u64,
    pub qr_status: String,
    pub qr_purpose: String,
    pub disb_type: String,
    pub remit_type: String,
    pub auth_action: String,
    pub device_id: String,
    pub is_burst: bool,
}

/// `r` is the row read from the fields `f`: text columns trimmed, integer and flag
/// columns read as such, floating-point columns as `read` gives them.
pub open spec fn unified_transactions_fields<F: Fn(&String) -> u64>(f: Seq<Seq<char>>, r: TransactionRow, read: F) -> bool {
    &&& r.user_id@ == trimmed(f[0])
    &&& r.counterparty_id@ == trimmed(f[1])
    &&& reads_as(read, f[2], r.amount_bits)
    &&& r.timestamp == field_unsigned(f[3], u64::MAX as nat)
    &&& r.qr_status@ == trimmed(f[4])
    &&& r.qr_purpose@ == trimmed(f[5])
    &&& r.disb_type@ == trimmed(f[6])
    &&& r.remit_type@ == trimmed(f[7])
    &&& r.auth_action@ == trimmed(f[8])
    &&& r.device_id@ == trimmed(f[9])
    &&& r.is_burst == field_bool(f[10])
}

/// Reads one record as a row; a record with fewer than 11 fields is none.
pub fn unified_transactions_row<F: Fn(&String) -> u64>(f: &Vec<String>, read_f64: &F) -> (r: Option<TransactionRow>)
    requires
        forall|x: &String| read_f64.requires((x,)),
    ensures
        r is Some <==> f@.len() >= 11,
        r matches Some(row) ==> unified_transactions_fields(string_views(f@), row, *read_f64),
{
    if f.len() < 11 {
        return None;
    }
    let row = TransactionRow {
        user_id: s(f[0].as_str()),
        counterparty_id: s(f[1].as_str()),
        amount_bits: read_f64(&f[2]),
        timestamp: parse_u64(f[3].as_str()),
        qr_status: s(f[4].as_str()),
        qr_purpose: s(f[5].as_str()),
        disb_type: s(f[6].as_str()),
        remit_type: s(f[7].as_str()),
        auth_action: s(f[8].as_str()),
        device_id: s(f[9].as_str()),
        is_burst: parse_bool(f[10].as_str()),
    };
    proof {
        let fv = string_views(f@);
        assert(fv[0] == f@[0]@);
        assert(fv[1] == f@[1]@);
        assert(fv[2] == f@[2]@);
        assert(call_ensures(*read_f64, (&f@[2],), row.amount_bits));
        assert(fv[3] == f@[3]@);
        assert(fv[4] == f@[4]@);
        assert(fv[5] == f@[5]@);
        assert(fv[6] == f@[6]@);
        assert(fv[7] == f@[7]@);
        assert(fv[8] == f@[8]@);
        assert(fv[9] == f@[9]@);
        assert(fv[10] == f@[10]@);
    }
    Some(row)
}

/// Reads the unified transaction rows (one CSV for every source) of a CSV text given as its lines (header first): every record
/// with at least 11 fields becomes a row, in order; shorter records are dropped.
pub fn parse_unified_transactions<F: Fn(&String) -> u64>(lines: &Vec<String>, read_f64: &F) -> (rows: Vec<TransactionRow>)
    requires
        forall|x: &String| read_f64.requires((x,)),
    ensures
        rows@.len() == long_records(csv_records(string_views(lines@)), 11).len(),
        forall|i: int| 0 <= i < rows@.len() ==> unified_transactions_fields(long_records(csv_records(string_views(lines@)), 11)[i], #[trigger] rows@[i], *read_f64),
{
    let records = read_csv_lines(lines);
    let ghost recs = record_views(records@);
    let mut rows: Vec<TransactionRow> = Vec::new();
    let mut i: usize = 0;
    while i < records.len()
        invariant
            recs == record_views(records@),
            0 <= i <= records.len(),
            forall|x: &String| read_f64.requires((x,)),
            rows@.len() == long_records(recs.take(i as int), 11).len(),
            forall|j: int| 0 <= j < rows@.len() ==> unified_transactions_fields(long_records(recs.take(i as int), 11)[j], #[trigger] rows@[j], *read_f64),
        decreases records.len() - i,
    {
        let ghost before = long_records(recs.take(i as int), 11);
        proof {
            assert(recs.take(i + 1).drop_last() =~= recs.take(i as int));
            assert(recs[i as int] == string_views(records@[i as int]@));
        }
        match unified_transactions_row(&records[i], read_f64) {
            Some(row) => {
                rows.push(row);
                proof {
                    let after = long_records(recs.take(i + 1), 11);
                    assert(after =~= before.push(recs[i as int]));
                    assert forall|j: int| 0 <= j < rows@.len() implies unified_transactions_fields(after[j], #[trigger] rows@[j], *read_f64) by {
                        if j < before.len() {
                            assert(after[j] == before[j]);
                        }
                    }
                }
            },
            None => {
                proof {
                    assert(long_records(recs.take(i + 1), 11) =~= before);
                }
            },
        }
        i += 1;
    }
    proof {
        assert(recs.take(records@.len() as int) =~= recs);
    }
    rows
}

} // verus!
