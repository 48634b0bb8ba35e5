use fullrbf_ui::text::{decimal_text, feerate_delta_string, feerate_string, fixed2_text};
use fullrbf_ui::types::txid_string;
use fullrbf_ui::RBFEvent;

#[test]
fn decimal_text_writes_digits() {
    assert_eq!(decimal_text(0), "0");
    assert_eq!(decimal_text(7), "7");
    assert_eq!(decimal_text(1234567890), "1234567890");
    assert_eq!(decimal_text(u64::MAX as u128), "18446744073709551615");
}

#[test]
fn fixed2_text_places_the_point() {
    assert_eq!(fixed2_text(0), "0.00");
    assert_eq!(fixed2_text(5), "0.05");
    assert_eq!(fixed2_text(1234), "12.34");
}

#[test]
fn feerate_has_two_decimals() {
    assert_eq!(feerate_string(1000, 300), "3.33");
    assert_eq!(feerate_string(500, 200), "2.50");
    assert_eq!(feerate_string(2000, 3), "666.67");
    assert_eq!(feerate_string(141, 141), "1.00");
}

#[test]
fn feerate_ties_round_to_even() {
    // 1/8 = 0.125 and 3/8 = 0.375 lie exactly between two hundredths.
    assert_eq!(feerate_string(1, 8), "0.12");
    assert_eq!(feerate_string(3, 8), "0.38");
}

#[test]
fn feerate_rounds_the_exact_quotient() {
    // 203/200 is exactly 1.015: the exact quotient rounds to even, 1.02.
    assert_eq!(feerate_string(203, 200), "1.02");
}

#[test]
fn feerate_of_zero_size() {
    assert_eq!(feerate_string(0, 0), "NaN");
    assert_eq!(feerate_string(5, 0), "inf");
}

#[test]
fn feerate_delta_is_signed() {
    // 1000/300 - 500/200 = 0.8333...
    assert_eq!(feerate_delta_string(1000, 300, 500, 200), "0.83");
    // 100/100 - 300/100 = -2
    assert_eq!(feerate_delta_string(100, 100, 300, 100), "-2.00");
    assert_eq!(feerate_delta_string(300, 100, 300, 100), "0.00");
}

#[test]
fn feerate_delta_with_zero_sizes() {
    assert_eq!(feerate_delta_string(10, 0, 5, 10), "inf");
    assert_eq!(feerate_delta_string(10, 10, 5, 0), "-inf");
    assert_eq!(feerate_delta_string(10, 0, 5, 0), "NaN");
    assert_eq!(feerate_delta_string(0, 0, 5, 10), "NaN");
}

#[test]
fn txid_is_shown_byte_reversed() {
    let mut id = [0u8; 32];
    id[0] = 0xab;
    id[31] = 0x01;
    let s = txid_string(&id);
    assert_eq!(s.len(), 64);
    assert!(s.starts_with("01"));
    assert!(s.ends_with("ab"));
}

#[test]
fn event_description_names_both_transactions() {
    let mut replaced = [0u8; 32];
    replaced[31] = 0x0a;
    let mut replacement = [0u8; 32];
    replacement[31] = 0x0b;
    let e = RBFEvent {
        timestamp: 100,
        replaced_txid: replaced,
        replaced_fee: 500,
        replaced_vsize: 200,
        replaced_entry_time: 0,
        replaced_raw: vec![],
        replacement_txid: replacement,
        replacement_fee: 1000,
        replacement_vsize: 300,
        replacement_raw: vec![],
    };
    let zeros = "00".repeat(31);
    let expected = format!(
        "Transaction(0a{}, fee=500, vsize=200) replaced with Transaction(0b{}, fee=1000, vsize=300)",
        zeros, zeros
    );
    assert_eq!(e.describe(), expected);
}
