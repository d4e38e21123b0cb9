use split_ledger::money::{format_amount, format_money};
use split_ledger::LedgerError;

#[test]
fn amounts_have_two_decimals() {
    assert_eq!(format_amount(0), "0.00");
    assert_eq!(format_amount(5), "0.05");
    assert_eq!(format_amount(50), "0.50");
    assert_eq!(format_amount(99), "0.99");
    assert_eq!(format_amount(100), "1.00");
    assert_eq!(format_amount(1234), "12.34");
    assert_eq!(format_amount(6999), "69.99");
    assert_eq!(format_amount(100000), "1000.00");
}

#[test]
fn money_carries_the_currency_sign() {
    assert_eq!(format_money(0), "0.00€");
    assert_eq!(format_money(2500), "25.00€");
    assert_eq!(format_money(299), "2.99€");
}

#[test]
fn largest_amount_is_written_in_full() {
    assert_eq!(
        format_amount(u128::MAX),
        "3402823669209384634633746074317682114.55"
    );
    assert_eq!(format_amount(u64::MAX as u128), "184467440737095516.15");
}

#[test]
fn amount_text_reads_back() {
    for cents in [0u128, 1, 9, 10, 99, 100, 101, 999, 1000, 123456789, u64::MAX as u128] {
        let text = format_amount(cents);
        let (whole, decimals) = text.split_once('.').unwrap();
        assert_eq!(decimals.len(), 2);
        let back = whole.parse::<u128>().unwrap() * 100 + decimals.parse::<u128>().unwrap();
        assert_eq!(back, cents);
    }
}

#[test]
fn errors_describe_themselves() {
    assert_eq!(LedgerError::DuplicateId.describe(), "identifier already in use");
    assert_eq!(LedgerError::UnknownParticipant.describe(), "participant not found");
    assert_eq!(LedgerError::UnknownReceipt.describe(), "receipt not found");
    assert_eq!(LedgerError::ParentIsExclusion.describe(), "receipt is an exclusion record");
}
