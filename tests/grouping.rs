use fullrbf_ui::html::time_in_mempool;
use fullrbf_ui::{
    build_replacement_groups, build_site_contexts, get_filename, page_count, sequence, without_op_return,
    ReplacementContext, ReplacementGroupContext, TransactionContext, MAX_PAGES, REPLACEMENT_GROUPS_PER_PAGE,
};

fn tx(txid: &str, fee: u64, vsize: u64) -> TransactionContext {
    TransactionContext {
        txid: txid.to_string(),
        fee,
        vsize,
        time_in_mempool: 0,
        feerate: String::new(),
        raw: String::new(),
        inputs: vec![],
        outputs: vec![],
        op_return: false,
        optin_rbf: false,
    }
}

fn replacement(timestamp: u64, replacement: TransactionContext, replaced: TransactionContext) -> ReplacementContext {
    ReplacementContext { timestamp, replaced, replacement }
}

fn groups_of(n: usize) -> Vec<ReplacementGroupContext> {
    let events: Vec<ReplacementContext> = (0..n)
        .map(|i| replacement(i as u64, tx(&format!("r{}", i), 10, 10), tx(&format!("d{}", i), 5, 10)))
        .collect();
    build_replacement_groups(events)
}

fn replaced_ids(g: &ReplacementGroupContext) -> Vec<String> {
    let mut ids: Vec<String> = g.replaced.iter().map(|t| t.txid.clone()).collect();
    ids.sort();
    ids
}

#[test]
fn two_replaced_transactions_form_one_group() {
    let events = vec![
        replacement(100, tx("X", 1000, 300), tx("A", 500, 200)),
        replacement(100, tx("X", 1000, 300), tx("B", 300, 150)),
    ];
    let groups = build_replacement_groups(events);
    assert_eq!(groups.len(), 1);
    let g = &groups[0];
    assert_eq!(g.timestamp, 100);
    assert_eq!(g.replacement.txid, "X");
    assert_eq!(replaced_ids(g), vec!["A".to_string(), "B".to_string()]);
    assert_eq!(g.delta.fee, 200);
    assert_eq!(g.delta.vsize, -50);
    assert_eq!(g.delta.feerate, "");
}

#[test]
fn one_replaced_transaction_shows_a_feerate_delta() {
    let events = vec![replacement(100, tx("X", 1000, 300), tx("A", 500, 200))];
    let groups = build_replacement_groups(events);
    assert_eq!(groups.len(), 1);
    assert_eq!(groups[0].delta.fee, 500);
    assert_eq!(groups[0].delta.vsize, 100);
    assert_eq!(groups[0].delta.feerate, "+0.83 sat/vByte");
}

#[test]
fn repeated_replaced_id_is_listed_once() {
    let events = vec![
        replacement(100, tx("X", 1000, 300), tx("A", 500, 200)),
        replacement(100, tx("X", 1000, 300), tx("A", 500, 200)),
        replacement(100, tx("X", 1000, 300), tx("B", 300, 150)),
        replacement(100, tx("X", 1000, 300), tx("A", 999, 999)),
    ];
    let groups = build_replacement_groups(events);
    assert_eq!(groups.len(), 1);
    assert_eq!(groups[0].replaced.len(), 2);
    assert_eq!(replaced_ids(&groups[0]), vec!["A".to_string(), "B".to_string()]);
    assert_eq!(groups[0].delta.fee, 200);
    assert_eq!(groups[0].delta.vsize, -50);
}

#[test]
fn same_replacement_at_other_time_is_another_group() {
    let events = vec![
        replacement(100, tx("X", 1000, 300), tx("A", 500, 200)),
        replacement(101, tx("X", 1000, 300), tx("B", 300, 150)),
    ];
    let groups = build_replacement_groups(events);
    assert_eq!(groups.len(), 2);
    assert_eq!(groups[0].timestamp, 101);
    assert_eq!(groups[1].timestamp, 100);
}

#[test]
fn groups_come_most_recent_first() {
    let events = vec![
        replacement(5, tx("P", 10, 10), tx("a", 1, 1)),
        replacement(9, tx("Q", 10, 10), tx("b", 1, 1)),
        replacement(1, tx("R", 10, 10), tx("c", 1, 1)),
        replacement(9, tx("S", 10, 10), tx("d", 1, 1)),
        replacement(7, tx("T", 10, 10), tx("e", 1, 1)),
    ];
    let groups = build_replacement_groups(events);
    let times: Vec<u64> = groups.iter().map(|g| g.timestamp).collect();
    assert_eq!(times, vec![9, 9, 7, 5, 1]);
}

#[test]
fn no_events_give_no_groups() {
    assert!(build_replacement_groups(vec![]).is_empty());
}

#[test]
fn large_fee_delta_is_exact() {
    let events = vec![
        replacement(1, tx("X", 10, 10), tx("A", u64::MAX, 1)),
        replacement(1, tx("X", 10, 10), tx("B", u64::MAX, 1)),
    ];
    let groups = build_replacement_groups(events);
    assert_eq!(groups[0].delta.fee, i64::MIN);
    assert_eq!(groups[0].delta.vsize, 8);
}

#[test]
fn grouping_twice_gives_the_same_groups() {
    let make = || {
        vec![
            replacement(3, tx("X", 1000, 300), tx("A", 500, 200)),
            replacement(3, tx("Y", 700, 200), tx("B", 300, 150)),
            replacement(3, tx("X", 1000, 300), tx("C", 100, 100)),
            replacement(2, tx("Z", 50, 50), tx("D", 10, 10)),
        ]
    };
    let summary = |gs: &Vec<ReplacementGroupContext>| {
        let mut v: Vec<(u64, String, Vec<String>, i64, i64, String)> = gs
            .iter()
            .map(|g| {
                (g.timestamp, g.replacement.txid.clone(), replaced_ids(g), g.delta.fee, g.delta.vsize, g.delta.feerate.clone())
            })
            .collect();
        v.sort();
        v
    };
    let first = build_replacement_groups(make());
    let second = build_replacement_groups(make());
    assert_eq!(first.len(), 3);
    assert_eq!(summary(&first), summary(&second));
    let pages1: Vec<usize> = build_site_contexts(first, 2, MAX_PAGES, 7).iter().map(|p| p.replacements.len()).collect();
    let pages2: Vec<usize> = build_site_contexts(second, 2, MAX_PAGES, 9).iter().map(|p| p.replacements.len()).collect();
    assert_eq!(pages1, pages2);
}

#[test]
fn no_groups_give_one_empty_page() {
    let pages = build_site_contexts(vec![], REPLACEMENT_GROUPS_PER_PAGE, MAX_PAGES, 42);
    assert_eq!(pages.len(), 1);
    assert!(pages[0].replacements.is_empty());
    assert_eq!(pages[0].page, 0);
    assert_eq!(pages[0].timestamp, 42);
    assert_eq!(pages[0].navigation.pages, vec![0]);
}

#[test]
fn pages_hold_at_most_a_page_size() {
    let pages = build_site_contexts(groups_of(250), REPLACEMENT_GROUPS_PER_PAGE, MAX_PAGES, 1);
    let sizes: Vec<usize> = pages.iter().map(|p| p.replacements.len()).collect();
    assert_eq!(sizes, vec![100, 100, 50]);
    assert_eq!(pages[1].page, 1);
    assert_eq!(pages[2].navigation.pages, vec![0, 1, 2]);
    // Most recent first: the first page starts with the latest timestamp.
    assert_eq!(pages[0].replacements[0].timestamp, 249);
    assert_eq!(pages[2].replacements[49].timestamp, 0);
}

#[test]
fn pages_beyond_the_limit_are_dropped() {
    let pages = build_site_contexts(groups_of(1234), REPLACEMENT_GROUPS_PER_PAGE, MAX_PAGES, 1);
    assert_eq!(pages.len(), MAX_PAGES as usize);
    assert!(pages.iter().all(|p| p.replacements.len() == 100));
    assert_eq!(pages[9].replacements[99].timestamp, 1234 - 1000);
}

#[test]
fn page_count_examples() {
    assert_eq!(page_count(0, 100, 10), 1);
    assert_eq!(page_count(99, 100, 10), 1);
    assert_eq!(page_count(100, 100, 10), 2);
    assert_eq!(page_count(250, 100, 10), 3);
    assert_eq!(page_count(999, 100, 10), 10);
    assert_eq!(page_count(5000, 100, 10), 10);
}

#[test]
fn page_sequence_counts_from_zero() {
    assert_eq!(sequence(0), Vec::<u32>::new());
    assert_eq!(sequence(3), vec![0, 1, 2]);
}

#[test]
fn first_page_is_the_index() {
    assert_eq!(get_filename(0), "index");
    assert_eq!(get_filename(1), "page_1");
    assert_eq!(get_filename(12), "page_12");
}

#[test]
fn op_return_groups_are_filtered_out() {
    let mut with_data = tx("Y", 700, 200);
    with_data.op_return = true;
    let events = vec![
        replacement(3, tx("X", 1000, 300), tx("A", 500, 200)),
        replacement(2, with_data, tx("B", 300, 150)),
        replacement(1, tx("Z", 50, 50), tx("D", 10, 10)),
    ];
    let groups = build_replacement_groups(events);
    let kept = without_op_return(&groups);
    let ids: Vec<String> = kept.iter().map(|g| g.replacement.txid.clone()).collect();
    assert_eq!(ids, vec!["X".to_string(), "Z".to_string()]);
    assert_eq!(kept[0].delta.feerate, groups[0].delta.feerate);
}

#[test]
fn time_in_mempool_examples() {
    assert_eq!(time_in_mempool(100, 0), 0);
    assert_eq!(time_in_mempool(100, 40), 60);
    assert_eq!(time_in_mempool(40, 100), -60);
    assert_eq!(time_in_mempool(u64::MAX, 1), i64::MAX);
}

#[test]
fn transaction_contexts_compare_by_id() {
    let a = tx("A", 1, 1);
    let mut b = tx("A", 2, 2);
    b.op_return = true;
    assert!(a == b);
    assert!(a != tx("B", 1, 1));
}
