use fullrbf_ui::html::full_rbf_replacements;
use fullrbf_ui::{
    build_replacement_context, conflict, get_reverse_fullrbf_replacements, is_full_rbf, kind_summary,
    signals_opt_in_rbf, transaction_facts, DecodeError, DecodedEvent, Outpoint, RBFEvent,
    TransactionFacts, TxInput,
};

// The first transaction between Satoshi and Hal: one P2PK input with a final
// sequence number, two P2PK outputs.
const SATOSHI_HAL_TX: &str = "0100000001c997a5e56e104102fa209c6a852dd90660a20b2d9c352423edce25857fcd3704000000004847304402204e45e16932b8af514961a1d3a1a25fdf3f4f7732e9d624c6c61548ab5fb8cd410220181522ec8eca07de4860a4acdd12909d831cc56cbbac4622082221a8768d1d0901ffffffff0200ca9a3b00000000434104ae1a62fe09c5f51b13905f07f06b99a2f7159b2225f374cd378d71302fa28414e7aab37397f554a7df5f142c21c1b7303b8a0626f1baded5c72a704f7e6cd84cac00286bee0000000043410411db93e1dcdb8a016b49840f8c53bc1eb68a382e97b1482ecad7b148a6909a5cb2e0eaddfb84ccf9744464f82e160bfa9b8b64f9d4c03f999b8643f656b412a3ac00000000";

// A P2SH-P2WSH multisig spend whose only input signals replaceability.
const SEGWIT_MULTISIG_TX: &str = "01000000000101c5633dd78147d06d9ef22da883c3f35cd1d6546218854a24b6da908d1650e052010000002322002090a0daaae7ab4d2fe9737db9ea7f9b5a63dfa083cc457adf1e324167d78f1dedfdffffff02103812000000000017a914652d1b1ffc7b5216adc7fa4d0ad4c66d3108b62a879d650e2d0000000017a914d926964e36a008a5e31c6c89f3abb9c7382b6f228704004830450221008005a978a9181739691770d6e483b6c15111a8e15218b2d542c5e1e03329c08c022021bff99948a14e2517ac2f735fed1c2d4b8bc4f614d37809a5c62ac4a471c13b0148304502210097cdd57f3aef21e4b3d0910c34bf5cb9799b206a97b79a1eac5719bf1520f63c02207f0f1afe378f3d0c57914814536e82a81d8d5454a4acfef3da3722d2a859d72f018b5221025be8b2946f6e86c16b65ed1f055980940dd67931029af24a5719ba8be779a9df21025d28dc125e50efff8767536c11e7119b578d2138000b43dd12969282792a06f92102ef98444f928b2fc9dc4d248bf5c550ead2e4527eaf0fb4ac2864f267c830d60f21034434478a4a7b6963d678468bc996304316ff953c266a18051898fda11d1c511454ae00000000";

fn input(txid_byte: u8, vout: u32, sequence: u32) -> TxInput {
    TxInput {
        previous_output: Outpoint { txid: [txid_byte; 32], vout },
        sequence,
    }
}

fn facts(inputs: Vec<TxInput>) -> TransactionFacts {
    TransactionFacts {
        txid: [0u8; 32],
        inputs,
        op_return: false,
        input_types: vec![],
        output_types: vec![],
    }
}

fn event(replaced_raw: &str, replacement_raw: &str) -> RBFEvent {
    RBFEvent {
        timestamp: 1_700_000_000,
        replaced_txid: [0u8; 32],
        replaced_fee: 1000,
        replaced_vsize: 250,
        replaced_entry_time: 1_699_999_940,
        replaced_raw: hex::decode(replaced_raw).unwrap(),
        replacement_txid: [0u8; 32],
        replacement_fee: 2000,
        replacement_vsize: 250,
        replacement_raw: hex::decode(replacement_raw).unwrap(),
    }
}

#[test]
fn opt_in_needs_one_signalling_input() {
    assert!(!signals_opt_in_rbf(&[]));
    assert!(!signals_opt_in_rbf(&[input(1, 0, 0xFFFF_FFFF), input(2, 0, 0xFFFF_FFFE)]));
    assert!(signals_opt_in_rbf(&[input(1, 0, 0xFFFF_FFFF), input(2, 0, 0xFFFF_FFFD)]));
    assert!(signals_opt_in_rbf(&[input(1, 0, 0)]));
}

#[test]
fn shown_flag_follows_the_classifier_rule() {
    let mixed = facts(vec![input(1, 0, 0), input(2, 0, 0xFFFF_FFFF)]);
    let replacement = facts(vec![input(1, 0, 0xFFFF_FFFF)]);
    let e = event(SATOSHI_HAL_TX, SATOSHI_HAL_TX);
    let c = build_replacement_context(&e, &mixed, &replacement);
    assert!(c.replaced.optin_rbf);
    assert!(!c.replacement.optin_rbf);
    assert!(!is_full_rbf(&mixed, &replacement));
}

#[test]
fn conflict_needs_a_shared_outpoint() {
    let a = [input(1, 0, 0xFFFF_FFFF), input(2, 3, 0xFFFF_FFFF)];
    let same_output = [input(9, 9, 0xFFFF_FFFF), input(2, 3, 0xFFFF_FFFF)];
    let other_vout = [input(2, 4, 0xFFFF_FFFF)];
    let other_txid = [input(3, 3, 0xFFFF_FFFF)];
    assert!(conflict(&a, &same_output));
    assert!(!conflict(&a, &other_vout));
    assert!(!conflict(&a, &other_txid));
    assert!(!conflict(&a, &[]));
}

#[test]
fn full_rbf_needs_no_opt_in_and_a_conflict() {
    let replaced = facts(vec![input(1, 0, 0xFFFF_FFFF)]);
    let replacement = facts(vec![input(1, 0, 0xFFFF_FFFD), input(5, 1, 0)]);
    assert!(is_full_rbf(&replaced, &replacement));
    let opted_in = facts(vec![input(1, 0, 0xFFFF_FFFD)]);
    assert!(!is_full_rbf(&opted_in, &replacement));
    let unrelated = facts(vec![input(7, 0, 0xFFFF_FFFF)]);
    assert!(!is_full_rbf(&unrelated, &replacement));
}

#[test]
fn opt_in_event_is_dropped() {
    let events = vec![event(SATOSHI_HAL_TX, SATOSHI_HAL_TX), event(SATOSHI_HAL_TX, SATOSHI_HAL_TX)];
    let decoded = vec![
        DecodedEvent {
            replaced: facts(vec![input(1, 0, 0xFFFF_FFFD)]),
            replacement: facts(vec![input(1, 0, 0xFFFF_FFFF)]),
        },
        DecodedEvent {
            replaced: facts(vec![input(1, 0, 0xFFFF_FFFF)]),
            replacement: facts(vec![input(1, 0, 0xFFFF_FFFF)]),
        },
    ];
    let kept = full_rbf_replacements(&events, &decoded);
    assert_eq!(kept.len(), 1);
}

#[test]
fn unrelated_event_is_dropped() {
    let events = vec![event(SATOSHI_HAL_TX, SATOSHI_HAL_TX)];
    let decoded = vec![DecodedEvent {
        replaced: facts(vec![input(1, 0, 0xFFFF_FFFF)]),
        replacement: facts(vec![input(1, 1, 0xFFFF_FFFF)]),
    }];
    assert!(full_rbf_replacements(&events, &decoded).is_empty());
}

#[test]
fn kept_events_come_newest_first() {
    let mut first = event(SATOSHI_HAL_TX, SATOSHI_HAL_TX);
    first.timestamp = 10;
    let mut second = event(SATOSHI_HAL_TX, SATOSHI_HAL_TX);
    second.timestamp = 20;
    let decoded = vec![
        DecodedEvent {
            replaced: facts(vec![input(1, 0, 0xFFFF_FFFF)]),
            replacement: facts(vec![input(1, 0, 0xFFFF_FFFF)]),
        },
        DecodedEvent {
            replaced: facts(vec![input(2, 0, 0xFFFF_FFFF)]),
            replacement: facts(vec![input(2, 0, 0xFFFF_FFFF)]),
        },
    ];
    let kept = full_rbf_replacements(&vec![first, second], &decoded);
    assert_eq!(kept.len(), 2);
    assert_eq!(kept[0].timestamp, 20);
    assert_eq!(kept[1].timestamp, 10);
}

#[test]
fn kind_summary_counts_and_sorts() {
    let labels = vec!["P2WPKH".to_string(), "P2TR".to_string(), "P2WPKH".to_string()];
    assert_eq!(kind_summary(&labels), vec!["1x P2TR".to_string(), "2x P2WPKH".to_string()]);
    assert!(kind_summary(&vec![]).is_empty());
}

#[test]
fn kind_summary_sorts_as_text() {
    let mut labels = vec!["B".to_string(); 2];
    labels.extend(vec!["A".to_string(); 10]);
    assert_eq!(kind_summary(&labels), vec!["10x A".to_string(), "2x B".to_string()]);
}

#[test]
fn facts_of_a_decoded_transaction() {
    let raw = hex::decode(SATOSHI_HAL_TX).unwrap();
    let f = transaction_facts(&raw).unwrap();
    let mut shown = f.txid;
    shown.reverse();
    assert_eq!(
        hex::encode(shown),
        "f4184fc596403b9d638783cf57adfe4c75c605f6356fbc91338530e9831e9e16"
    );
    assert_eq!(f.inputs.len(), 1);
    assert_eq!(f.inputs[0].sequence, 0xFFFF_FFFF);
    assert_eq!(f.inputs[0].previous_output.vout, 0);
    assert_eq!(f.input_types, vec!["P2PK".to_string()]);
    assert_eq!(f.output_types, vec!["P2PK".to_string(), "P2PK".to_string()]);
    assert!(!f.op_return);
}

#[test]
fn malformed_bytes_do_not_decode() {
    assert_eq!(transaction_facts(&[0x01, 0x02, 0x03]).err(), Some(DecodeError::Malformed));
    let mut raw = hex::decode(SATOSHI_HAL_TX).unwrap();
    raw.push(0);
    assert_eq!(transaction_facts(&raw).err(), Some(DecodeError::Malformed));
}

#[test]
fn pipeline_keeps_a_direct_conflict_without_opt_in() {
    let events = vec![event(SATOSHI_HAL_TX, SATOSHI_HAL_TX)];
    let kept = get_reverse_fullrbf_replacements(&events).unwrap();
    assert_eq!(kept.len(), 1);
    let c = &kept[0];
    assert_eq!(c.timestamp, 1_700_000_000);
    assert_eq!(c.replaced.txid, "f4184fc596403b9d638783cf57adfe4c75c605f6356fbc91338530e9831e9e16");
    assert_eq!(c.replaced.time_in_mempool, 60);
    assert_eq!(c.replacement.time_in_mempool, 0);
    assert_eq!(c.replaced.feerate, "4.00");
    assert_eq!(c.replacement.feerate, "8.00");
    assert_eq!(c.replaced.raw, SATOSHI_HAL_TX);
    assert_eq!(c.replaced.inputs, vec!["1x P2PK".to_string()]);
    assert_eq!(c.replaced.outputs, vec!["2x P2PK".to_string()]);
    assert!(!c.replaced.optin_rbf);
}

#[test]
fn pipeline_drops_opt_in_and_unrelated_events() {
    let events = vec![
        event(SEGWIT_MULTISIG_TX, SEGWIT_MULTISIG_TX),
        event(SATOSHI_HAL_TX, SEGWIT_MULTISIG_TX),
    ];
    let kept = get_reverse_fullrbf_replacements(&events).unwrap();
    assert!(kept.is_empty());
}

#[test]
fn pipeline_fails_on_undecodable_event() {
    let mut bad = event(SATOSHI_HAL_TX, SATOSHI_HAL_TX);
    bad.replacement_raw = vec![0xde, 0xad];
    let events = vec![event(SATOSHI_HAL_TX, SATOSHI_HAL_TX), bad];
    assert_eq!(get_reverse_fullrbf_replacements(&events).err(), Some(DecodeError::Malformed));
}

#[test]
fn segwit_facts_signal_opt_in() {
    let raw = hex::decode(SEGWIT_MULTISIG_TX).unwrap();
    let f = transaction_facts(&raw).unwrap();
    assert!(signals_opt_in_rbf(&f.inputs));
    assert_eq!(kind_summary(&f.input_types), vec!["1x P2SH-P2WSH".to_string()]);
    assert_eq!(kind_summary(&f.output_types), vec!["2x P2SH".to_string()]);
}
