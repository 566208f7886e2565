use vstd::prelude::*;
use crate::csv::{field_bool, field_unsigned, trimmed};
use crate::rows::{DisbursementRow, QrTransactionRow, RemittanceRow, ServicePaymentRow, TransactionRow, WalletHistoryRow, disbursements_fields, qr_transactions_fields, reads_as, remittance_fields, service_payments_fields, unified_transactions_fields, wallet_history_fields};

verus! {

/// The column layout of a wallet history record (17 columns): each field of the row comes from
/// its own fixed column, as trimmed text, an unsigned integer, a flag, or the value
/// that the floating-point reader gives for that column.
pub proof fn law_wallet_history_columns<F: Fn(&String) -> u64>(f: Seq<Seq<char>>, r: WalletHistoryRow, read: F)
    requires
        wallet_history_fields(f, r, read),
    ensures
        r.id@ == trimmed(f[0]),
        r.idx == field_unsigned(f[1], 18_446_744_073_709_551_615nat),
        r.created_on == field_unsigned(f[2], 18_446_744_073_709_551_615nat),
        r.modified_on == field_unsigned(f[3], 18_446_744_073_709_551_615nat),
        r.is_obsolete == field_bool(f[4]),
        reads_as(read, f[5], r.balance_bits),
        reads_as(read, f[6], r.secondary_balance_bits),
        reads_as(read, f[7], r.hold_balance_bits),
        reads_as(read, f[8], r.transaction_effect_bits),
        r.transaction_id@ == trimmed(f[9]),
        r.user_id@ == trimmed(f[10]),
        reads_as(read, f[11], r.lien_amount_bits),
        r.created_on_np_date@ == trimmed(f[12]),
        reads_as(read, f[13], r.primary_transaction_effect_bits),
        reads_as(read, f[14], r.secondary_transaction_effect_bits),
        r.tx_type@ == trimmed(f[15]),
        r.is_anomaly == field_bool(f[16]),
{
}

/// The column layout of a qr transactions record (34 columns): each field of the row comes from
/// its own fixed column, as trimmed text, an unsigned integer, a flag, or the value
/// that the floating-point reader gives for that column.
pub proof fn law_qr_transactions_columns<F: Fn(&String) -> u64>(f: Seq<Seq<char>>, r: QrTransactionRow, read: F)
    requires
        qr_transactions_fields(f, r, read),
    ensures
        r.id@ == trimmed(f[0]),
        r.idx == field_unsigned(f[1], 18_446_744_073_709_551_615nat),
        r.created_on == field_unsigned(f[2], 18_446_744_073_709_551_615nat),
        r.modified_on == field_unsigned(f[3], 18_446_744_073_709_551_615nat),
        r.is_obsolete == field_bool(f[4]),
        r.mid@ == trimmed(f[5]),
        r.midx == field_unsigned(f[6], 18_446_744_073_709_551_615nat),
        r.tid@ == trimmed(f[7]),
        r.iin@ == trimmed(f[8]),
        r.status@ == trimmed(f[9]),
        reads_as(read, f[10], r.amount_bits),
        reads_as(read, f[11], r.bill_amount_bits),
        reads_as(read, f[12], r.markup_amount_bits),
        reads_as(read, f[13], r.settlement_amount_bits),
        reads_as(read, f[14], r.fee_amount_bits),
        r.remarks@ == trimmed(f[15]),
        r.purpose@ == trimmed(f[16]),
        r.msg_id@ == trimmed(f[17]),
        r.trace_number@ == trimmed(f[18]),
        r.device_id@ == trimmed(f[19]),
        r.pan@ == trimmed(f[20]),
        r.on_us == field_bool(f[21]),
        r.bill_number@ == trimmed(f[22]),
        reads_as(read, f[23], r.discount_amount_bits),
        reads_as(read, f[24], r.source_fee_bits),
        reads_as(read, f[25], r.destination_fee_bits),
        r.acquiree_id@ == trimmed(f[26]),
        r.issuee_id@ == trimmed(f[27]),
        r.transaction_id@ == trimmed(f[28]),
        r.reference_number@ == trimmed(f[29]),
        reads_as(read, f[30], r.coupon_discount_bits),
        r.currency@ == trimmed(f[31]),
        r.created_on_np_date@ == trimmed(f[32]),
        r.is_anomaly == field_bool(f[33]),
{
}

/// The column layout of a service payments record (16 columns): each field of the row comes from
/// its own fixed column, as trimmed text, an unsigned integer, a flag, or the value
/// that the floating-point reader gives for that column.
pub proof fn law_service_payments_columns<F: Fn(&String) -> u64>(f: Seq<Seq<char>>, r: ServicePaymentRow, read: F)
    requires
        service_payments_fields(f, r, read),
    ensures
        r.id@ == trimmed(f[0]),
        r.idx == field_unsigned(f[1], 18_446_744_073_709_551_615nat),
        r.created_on == field_unsigned(f[2], 18_446_744_073_709_551_615nat),
        r.modified_on == field_unsigned(f[3], 18_446_744_073_709_551_615nat),
        r.is_obsolete == field_bool(f[4]),
        r.status@ == trimmed(f[5]),
        reads_as(read, f[6], r.amount_bits),
        r.response_id@ == trimmed(f[7]),
        r.detail@ == trimmed(f[8]),
        r.service_id@ == trimmed(f[9]),
        r.user_id@ == trimmed(f[10]),
        reads_as(read, f[11], r.service_charge_bits),
        r.max_tries == field_unsigned(f[12], 4_294_967_295nat),
        r.notify_mobile@ == trimmed(f[13]),
        r.created_on_np_date@ == trimmed(f[14]),
        r.is_anomaly == field_bool(f[15]),
{
}

/// The column layout of a remittance record (41 columns): each field of the row comes from
/// its own fixed column, as trimmed text, an unsigned integer, a flag, or the value
/// that the floating-point reader gives for that column.
pub proof fn law_remittance_columns<F: Fn(&String) -> u64>(f: Seq<Seq<char>>, r: RemittanceRow, read: F)
    requires
        remittance_fields(f, r, read),
    ensures
        r.id@ == trimmed(f[0]),
        r.idx == field_unsigned(f[1], 18_446_744_073_709_551_615nat),
        r.created_on == field_unsigned(f[2], 18_446_744_073_709_551_615nat),
        r.modified_on == field_unsigned(f[3], 18_446_744_073_709_551_615nat),
        r.is_obsolete == field_bool(f[4]),
        r.status@ == trimmed(f[5]),
        r.beneficary_name@ == trimmed(f[6]),
        r.beneficary_country@ == trimmed(f[7]),
        r.beneficary_address@ == trimmed(f[8]),
        r.beneficary_city@ == trimmed(f[9]),
        r.beneficary_mobile@ == trimmed(f[10]),
        r.beneficary_id_type@ == trimmed(f[11]),
        r.beneficary_id_no@ == trimmed(f[12]),
        r.beneficary_account_no@ == trimmed(f[13]),
        r.beneficary_bank_name@ == trimmed(f[14]),
        r.beneficary_bank_branch@ == trimmed(f[15]),
        r.sender_name@ == trimmed(f[16]),
        r.sender_country@ == trimmed(f[17]),
        r.sender_address@ == trimmed(f[18]),
        r.sender_city@ == trimmed(f[19]),
        r.sender_mobile@ == trimmed(f[20]),
        r.sender_id_type@ == trimmed(f[21]),
        r.sender_id_no@ == trimmed(f[22]),
        r.purpose@ == trimmed(f[23]),
        r.remit_type@ == trimmed(f[24]),
        r.local_currency@ == trimmed(f[25]),
        r.paying_currency@ == trimmed(f[26]),
        reads_as(read, f[27], r.local_amount_bits),
        reads_as(read, f[28], r.remit_amount_bits),
        reads_as(read, f[29], r.amount_bits),
        reads_as(read, f[30], r.service_charge_bits),
        reads_as(read, f[31], r.exchange_rate_bits),
        r.relation@ == trimmed(f[32]),
        r.control_no@ == trimmed(f[33]),
        r.remittance_agent_id@ == trimmed(f[34]),
        r.sender_id@ == trimmed(f[35]),
        r.third_party_send == field_bool(f[36]),
        reads_as(read, f[37], r.coupon_amount_bits),
        r.from_kpg == field_bool(f[38]),
        r.created_on_np_date@ == trimmed(f[39]),
        r.is_anomaly == field_bool(f[40]),
{
}

/// The column layout of a disbursements record (14 columns): each field of the row comes from
/// its own fixed column, as trimmed text, an unsigned integer, a flag, or the value
/// that the floating-point reader gives for that column.
pub proof fn law_disbursements_columns<F: Fn(&String) -> u64>(f: Seq<Seq<char>>, r: DisbursementRow, read: F)
    requires
        disbursements_fields(f, r, read),
    ensures
        r.id@ == trimmed(f[0]),
        r.idx == field_unsigned(f[1], 18_446_744_073_709_551_615nat),
        r.created_on == field_unsigned(f[2], 18_446_744_073_709_551_615nat),
        r.modified_on == field_unsigned(f[3], 18_446_744_073_709_551_615nat),
        r.is_obsolete == field_bool(f[4]),
        reads_as(read, f[5], r.amount_bits),
        r.status@ == trimmed(f[6]),
        r.tx_type@ == trimmed(f[7]),
        r.remarks@ == trimmed(f[8]),
        r.batch_id@ == trimmed(f[9]),
        r.destination_account_id@ == trimmed(f[10]),
        r.source_account_id@ == trimmed(f[11]),
        r.created_on_np_date@ == trimmed(f[12]),
        r.is_anomaly == field_bool(f[13]),
{
}

/// The column layout of a unified transactions record (11 columns): each field of the row comes from
/// its own fixed column, as trimmed text, an unsigned integer, a flag, or the value
/// that the floating-point reader gives for that column.
pub proof fn law_unified_transactions_columns<F: Fn(&String) -> u64>(f: Seq<Seq<char>>, r: TransactionRow, read: F)
    requires
        unified_transactions_fields(f, r, read),
    ensures
        r.user_id@ == trimmed(f[0]),
        r.counterparty_id@ == trimmed(f[1]),
        reads_as(read, f[2], r.amount_bits),
        r.timestamp == field_unsigned(f[3], 18_446_744_073_709_551_615nat),
        r.qr_status@ == trimmed(f[4]),
        r.qr_purpose@ == trimmed(f[5]),
        r.disb_type@ == trimmed(f[6]),
        r.remit_type@ == trimmed(f[7]),
        r.auth_action@ == trimmed(f[8]),
        r.device_id@ == trimmed(f[9]),
        r.is_burst == field_bool(f[10]),
{
}

} // verus!
