use std::collections::HashMap;

use maroon::delays::{move_offset_pointer, requested_transactions, self_delays};
use maroon::peer::{PeerId, PeerOffsets};
use maroon::range_key::{unique_blob_id_from_range_and_offset, KeyOffset, KeyRange, UniqueU64BlobId};
use maroon::transaction::{Transaction, TxStatus};

fn test_tx(id: u64) -> Transaction {
    Transaction { id: UniqueU64BlobId(id), status: TxStatus::Pending }
}

fn peer(code: u64, digest: &[u8]) -> PeerId {
    PeerId { code, digest: digest.to_vec() }
}

fn offsets_of(entries: &[(PeerId, u64)]) -> PeerOffsets {
    let mut m = PeerOffsets::new();
    for (p, o) in entries {
        m.set(p.clone(), KeyOffset(*o));
    }
    m
}

#[test]
fn test_self_delays_calculation() {
    struct Case<'a> {
        label: &'a str,
        self_offsets: HashMap<u64, u64>,
        transactions: HashMap<u64, Transaction>,
        offsets: HashMap<u64, PeerOffsets>,
        expected_ranges: HashMap<PeerId, Vec<(UniqueU64BlobId, UniqueU64BlobId)>>,
    }

    let peer_id_0 = peer(0, &[10, 20]);
    let peer_id_1 = peer(0, &[30, 40]);

    for case in vec![
        Case {
            label: "empty everything",
            self_offsets: HashMap::new(),
            transactions: HashMap::new(),
            offsets: HashMap::new(),
            expected_ranges: HashMap::new(),
        },
        Case {
            label: "self in front",
            self_offsets: HashMap::from([(0, 5), (2, 3)]),
            transactions: HashMap::new(),
            offsets: HashMap::from([
                (0, offsets_of(&[(peer_id_0.clone(), 5), (peer_id_1.clone(), 2)])),
                (2, offsets_of(&[(peer_id_0.clone(), 1), (peer_id_1.clone(), 2)])),
            ]),
            expected_ranges: HashMap::new(),
        },
        Case {
            label: "self behind few and few gaps in txs",
            self_offsets: HashMap::from([(0, 1), (2, 1)]),
            transactions: HashMap::from([(5, test_tx(5)), (6, test_tx(6))]),
            offsets: HashMap::from([
                (0, offsets_of(&[(peer_id_0.clone(), 8), (peer_id_1.clone(), 2)])),
                (2, offsets_of(&[(peer_id_0.clone(), 3), (peer_id_1.clone(), 1)])),
                (3, offsets_of(&[(peer_id_0.clone(), 1), (peer_id_1.clone(), 3)])),
            ]),
            expected_ranges: HashMap::from([
                (
                    peer_id_0.clone(),
                    vec![
                        (UniqueU64BlobId(2), UniqueU64BlobId(4)),
                        (UniqueU64BlobId(7), UniqueU64BlobId(8)),
                        (
                            unique_blob_id_from_range_and_offset(KeyRange(2), KeyOffset(2)),
                            unique_blob_id_from_range_and_offset(KeyRange(2), KeyOffset(3)),
                        ),
                    ],
                ),
                (
                    peer_id_1.clone(),
                    vec![(
                        unique_blob_id_from_range_and_offset(KeyRange(3), KeyOffset(0)),
                        unique_blob_id_from_range_and_offset(KeyRange(3), KeyOffset(3)),
                    )],
                ),
            ]),
        },
    ] {
        let mut ranges: HashMap<PeerId, Vec<(UniqueU64BlobId, UniqueU64BlobId)>> =
            self_delays(&case.transactions, &case.self_offsets, &case.offsets).into_iter().collect();
        for (_, v) in ranges.iter_mut() {
            v.sort_by_key(|pair| pair.0);
        }
        assert_eq!(case.expected_ranges, ranges, "{}", case.label);
    }
}

#[test]
fn delays_ask_the_last_of_equally_advanced_peers() {
    let a = peer(0, &[1]);
    let b = peer(0, &[2]);
    let offsets = HashMap::from([(0, offsets_of(&[(a.clone(), 3), (b.clone(), 3)]))]);
    let delays = self_delays(&HashMap::new(), &HashMap::new(), &offsets);
    assert_eq!(delays, vec![(b, vec![(UniqueU64BlobId(0), UniqueU64BlobId(3))])]);
}

#[test]
fn delays_without_gaps_still_name_the_peer() {
    let a = peer(0, &[1]);
    let offsets = HashMap::from([(0, offsets_of(&[(a.clone(), 2)]))]);
    let transactions = HashMap::from([(1, test_tx(1)), (2, test_tx(2))]);
    let self_offsets = HashMap::from([(0, 0)]);
    let delays = self_delays(&transactions, &self_offsets, &offsets);
    assert_eq!(delays, vec![(a, vec![])]);
}

#[test]
fn requested_transactions_are_returned_in_order() {
    let transactions: HashMap<u64, Transaction> = (0..6).map(|i| (i, test_tx(i))).collect();
    let ranges = vec![(UniqueU64BlobId(1), UniqueU64BlobId(3)), (UniqueU64BlobId(5), UniqueU64BlobId(5))];
    assert_eq!(
        requested_transactions(&transactions, &ranges),
        vec![test_tx(1), test_tx(2), test_tx(3), test_tx(5)]
    );
}

#[test]
fn requested_transactions_skip_ids_that_are_not_stored() {
    let transactions = HashMap::from([(0, test_tx(0)), (1, test_tx(1)), (3, test_tx(3))]);
    let ranges = vec![(UniqueU64BlobId(0), UniqueU64BlobId(3))];
    assert_eq!(
        requested_transactions(&transactions, &ranges),
        vec![test_tx(0), test_tx(1), test_tx(3)]
    );
}

#[test]
fn moving_a_pointer_creates_or_updates_the_range() {
    let a = peer(0, &[1]);
    let b = peer(0, &[2]);
    let mut offsets: HashMap<u64, PeerOffsets> = HashMap::new();
    move_offset_pointer(&mut offsets, a.clone(), KeyRange(4), KeyOffset(1));
    move_offset_pointer(&mut offsets, b.clone(), KeyRange(4), KeyOffset(7));
    move_offset_pointer(&mut offsets, a.clone(), KeyRange(4), KeyOffset(9));
    assert_eq!(offsets.len(), 1);
    assert_eq!(offsets[&4].entries, vec![(a, KeyOffset(9)), (b, KeyOffset(7))]);
}
