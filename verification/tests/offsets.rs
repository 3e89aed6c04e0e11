use std::collections::HashMap;

use maroon::offsets::{
    calculate_epoch_increments, txs_to_range_tx_map, update_self_offset, update_self_offsets,
};
use maroon::range_key::{unique_blob_id_from_range_and_offset, KeyOffset, KeyRange, UniqueU64BlobId};
use maroon::transaction::{Transaction, TxStatus};

fn test_tx(id: u64) -> Transaction {
    Transaction { id: UniqueU64BlobId(id), status: TxStatus::Pending }
}

#[test]
fn update_self_offset_test() {
    struct Case<'a> {
        label: &'a str,
        initial_self_offsets: HashMap<u64, u64>,
        initial_transactions: HashMap<u64, Transaction>,
        transaction: Transaction,
        expected_self_offsets: HashMap<u64, u64>,
        expected_transactions: HashMap<u64, Transaction>,
    }

    let cases = [
        Case {
            label: "empty",
            initial_self_offsets: HashMap::new(),
            initial_transactions: HashMap::new(),
            transaction: test_tx(0),
            expected_self_offsets: HashMap::from([(0, 0)]),
            expected_transactions: HashMap::from([(0, test_tx(0))]),
        },
        Case {
            label: "add already existing transaction. no effect",
            initial_self_offsets: HashMap::from([(0, 0)]),
            initial_transactions: HashMap::from([(0, test_tx(0))]),
            transaction: test_tx(0),
            expected_self_offsets: HashMap::from([(0, 0)]),
            expected_transactions: HashMap::from([(0, test_tx(0))]),
        },
        Case {
            label: "add next transaction",
            initial_self_offsets: HashMap::from([(0, 0)]),
            initial_transactions: HashMap::from([(0, test_tx(0))]),
            transaction: test_tx(1),
            expected_self_offsets: HashMap::from([(0, 1)]),
            expected_transactions: HashMap::from([(0, test_tx(0)), (1, test_tx(1))]),
        },
        Case {
            label: "add transaction, fill the gap, empty initial offset",
            initial_self_offsets: HashMap::from([]),
            initial_transactions: HashMap::from([(1, test_tx(1))]),
            transaction: test_tx(0),
            expected_self_offsets: HashMap::from([(0, 1)]),
            expected_transactions: HashMap::from([(0, test_tx(0)), (1, test_tx(1))]),
        },
        Case {
            label: "add transaction, fill the gap, dont go till the end",
            initial_self_offsets: HashMap::from([(0, 0)]),
            initial_transactions: HashMap::from([(0, test_tx(0)), (2, test_tx(2)), (4, test_tx(4))]),
            transaction: test_tx(1),
            expected_self_offsets: HashMap::from([(0, 2)]),
            expected_transactions: HashMap::from([
                (0, test_tx(0)),
                (1, test_tx(1)),
                (2, test_tx(2)),
                (4, test_tx(4)),
            ]),
        },
        Case {
            label: "add transaction, fill the gap but not in the beginning",
            initial_self_offsets: HashMap::from([(0, 0)]),
            initial_transactions: HashMap::from([(0, test_tx(0)), (2, test_tx(2)), (4, test_tx(4))]),
            transaction: test_tx(3),
            expected_self_offsets: HashMap::from([(0, 0)]),
            expected_transactions: HashMap::from([
                (0, test_tx(0)),
                (3, test_tx(3)),
                (2, test_tx(2)),
                (4, test_tx(4)),
            ]),
        },
    ];

    for case in cases {
        let mut case = case;
        update_self_offset(
            &mut case.initial_self_offsets,
            &mut case.initial_transactions,
            case.transaction,
        );
        assert_eq!(case.expected_self_offsets, case.initial_self_offsets, "{}", case.label);
        assert_eq!(case.expected_transactions, case.initial_transactions, "{}", case.label);
    }
}

#[test]
fn update_self_offset_reports_the_moved_offset() {
    let mut self_offsets = HashMap::from([(0, 0)]);
    let mut transactions = HashMap::from([(0, test_tx(0)), (2, test_tx(2))]);
    let update = update_self_offset(&mut self_offsets, &mut transactions, test_tx(1));
    assert_eq!(update, Some((KeyRange(0), KeyOffset(2))));
}

#[test]
fn update_self_offset_without_first_transaction_reports_nothing() {
    let mut self_offsets = HashMap::new();
    let mut transactions = HashMap::new();
    let update = update_self_offset(&mut self_offsets, &mut transactions, test_tx(5));
    assert_eq!(update, None);
    assert!(self_offsets.is_empty());
    assert_eq!(transactions, HashMap::from([(5, test_tx(5))]));
}

#[test]
fn update_self_offsets_moves_each_range() {
    let second = unique_blob_id_from_range_and_offset(KeyRange(1), KeyOffset(0)).0;
    let mut self_offsets = HashMap::new();
    let mut transactions = HashMap::new();
    let input = txs_to_range_tx_map(vec![test_tx(1), test_tx(0), test_tx(second), test_tx(second + 1), test_tx(9)]);
    let mut updates = update_self_offsets(&mut self_offsets, &mut transactions, input);
    updates.sort();
    assert_eq!(updates, vec![(KeyRange(0), KeyOffset(1)), (KeyRange(1), KeyOffset(1))]);
    assert_eq!(self_offsets, HashMap::from([(0, 1), (1, 1)]));
    assert_eq!(transactions.len(), 5);
}

#[test]
fn txs_are_grouped_by_range_in_order() {
    let second = unique_blob_id_from_range_and_offset(KeyRange(1), KeyOffset(4)).0;
    let groups = txs_to_range_tx_map(vec![test_tx(3), test_tx(second), test_tx(1)]);
    assert_eq!(groups.len(), 2);
    assert_eq!(groups[&0], vec![test_tx(3), test_tx(1)]);
    assert_eq!(groups[&1], vec![test_tx(second)]);
}

#[test]
fn test_calculate_epoch_increments() {
    struct Case<'a> {
        label: &'a str,
        consensus_offset: HashMap<u64, u64>,
        commited_offsets: HashMap<u64, u64>,
        expected_increments: Vec<(UniqueU64BlobId, UniqueU64BlobId)>,
    }

    for case in vec![
        Case {
            label: "empty everything",
            consensus_offset: HashMap::new(),
            commited_offsets: HashMap::new(),
            expected_increments: vec![],
        },
        Case {
            label: "nothing commited before",
            consensus_offset: [(0, 2)].into(),
            commited_offsets: [].into(),
            expected_increments: vec![(UniqueU64BlobId(0), UniqueU64BlobId(2))],
        },
        Case {
            label: "no progress",
            consensus_offset: [(0, 2)].into(),
            commited_offsets: [(0, 2)].into(),
            expected_increments: vec![],
        },
        Case {
            label: "consensus delayed by any reasons",
            consensus_offset: [(0, 1)].into(),
            commited_offsets: [(0, 2)].into(),
            expected_increments: vec![],
        },
        Case {
            label: "progress in some",
            consensus_offset: [(0, 10), (1, 2), (2, 6)].into(),
            commited_offsets: [(0, 6), (1, 2), (2, 8)].into(),
            expected_increments: vec![(UniqueU64BlobId(7), UniqueU64BlobId(10))],
        },
    ] {
        let mut increments = calculate_epoch_increments(&case.consensus_offset, &case.commited_offsets);
        increments.sort_by_key(|pair| pair.0);
        assert_eq!(case.expected_increments, increments, "{}", case.label);
    }
}

#[test]
fn epoch_increments_in_a_later_range() {
    let consensus = HashMap::from([(3, 5)]);
    let committed = HashMap::from([(3, 1)]);
    let increments = calculate_epoch_increments(&consensus, &committed);
    assert_eq!(
        increments,
        vec![(
            unique_blob_id_from_range_and_offset(KeyRange(3), KeyOffset(2)),
            unique_blob_id_from_range_and_offset(KeyRange(3), KeyOffset(5)),
        )]
    );
}

#[test]
fn update_self_offset_reports_nothing_when_the_offset_stays() {
    let mut self_offsets = HashMap::from([(0, 0)]);
    let mut transactions = HashMap::from([(0, test_tx(0))]);
    let update = update_self_offset(&mut self_offsets, &mut transactions, test_tx(0));
    assert_eq!(update, None);
    assert_eq!(self_offsets, HashMap::from([(0, 0)]));
}

#[test]
fn update_self_offsets_reports_only_moved_offsets() {
    let mut self_offsets = HashMap::from([(0, 1)]);
    let mut transactions = HashMap::from([(0, test_tx(0)), (1, test_tx(1))]);
    let second = unique_blob_id_from_range_and_offset(KeyRange(1), KeyOffset(0)).0;
    let input = txs_to_range_tx_map(vec![test_tx(1), test_tx(second)]);
    let updates = update_self_offsets(&mut self_offsets, &mut transactions, input);
    assert_eq!(updates, vec![(KeyRange(1), KeyOffset(0))]);
    assert_eq!(self_offsets, HashMap::from([(0, 1), (1, 0)]));
}

#[test]
fn the_offset_walk_stops_at_the_end_of_its_range() {
    let last = unique_blob_id_from_range_and_offset(KeyRange(0), KeyOffset(1_073_741_823)).0;
    let mut self_offsets = HashMap::from([(0, 1_073_741_822)]);
    let mut transactions = HashMap::from([(last + 1, test_tx(last + 1))]);
    let update = update_self_offset(&mut self_offsets, &mut transactions, test_tx(last));
    assert_eq!(update, Some((KeyRange(0), KeyOffset(1_073_741_823))));
    assert_eq!(self_offsets, HashMap::from([(0, 1_073_741_823)]));
}

#[test]
fn a_single_newly_confirmed_offset_is_committed() {
    let consensus = HashMap::from([(0, 3)]);
    let committed = HashMap::from([(0, 2)]);
    assert_eq!(
        calculate_epoch_increments(&consensus, &committed),
        vec![(UniqueU64BlobId(3), UniqueU64BlobId(3))]
    );
}

#[test]
fn a_lone_first_transaction_is_committed() {
    let consensus = HashMap::from([(0, 0)]);
    let committed = HashMap::new();
    assert_eq!(
        calculate_epoch_increments(&consensus, &committed),
        vec![(UniqueU64BlobId(0), UniqueU64BlobId(0))]
    );
}
