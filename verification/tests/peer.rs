use maroon::peer::{consensus_maximum, delay_factor, PeerId, PeerOffsets};
use maroon::range_key::KeyOffset;

fn peer(code: u64, digest: &[u8]) -> PeerId {
    PeerId { code, digest: digest.to_vec() }
}

#[test]
fn calculate_consensus_maximum() {
    let p_id_1 = peer(0, &[1, 1, 1]);
    let p_id_2 = peer(0, &[2, 2, 2]);
    let p_id_3 = peer(0, &[3, 3, 3]);

    struct Case {
        map: Vec<(PeerId, KeyOffset)>,
        want: Option<KeyOffset>,
    }

    let cases = [
        Case { map: vec![], want: None },
        Case { map: vec![(p_id_1.clone(), KeyOffset(10))], want: None },
        Case {
            map: vec![
                (p_id_1.clone(), KeyOffset(10)),
                (p_id_2.clone(), KeyOffset(2)),
                (p_id_3.clone(), KeyOffset(4)),
            ],
            want: Some(KeyOffset(4)),
        },
    ];

    for (i, case) in cases.iter().enumerate() {
        let mut hm = PeerOffsets::new();
        for (p, o) in case.map.clone() {
            hm.set(p, o);
        }
        assert_eq!(
            consensus_maximum(&hm, 2),
            case.want,
            "case #{} failed: {:?} → {:?}",
            i,
            case.map,
            case.want
        );
    }
}

#[test]
fn consensus_maximum_counts_equal_offsets_per_peer() {
    let mut hm = PeerOffsets::new();
    hm.set(peer(0, &[1]), KeyOffset(7));
    hm.set(peer(0, &[2]), KeyOffset(7));
    hm.set(peer(0, &[3]), KeyOffset(1));
    assert_eq!(consensus_maximum(&hm, 2), Some(KeyOffset(7)));
    assert_eq!(consensus_maximum(&hm, 3), Some(KeyOffset(1)));
    assert_eq!(consensus_maximum(&hm, 1), Some(KeyOffset(7)));
    assert_eq!(consensus_maximum(&hm, 4), None);
}

#[test]
fn peer_offsets_keep_one_entry_per_peer() {
    let mut hm = PeerOffsets::new();
    hm.set(peer(0, &[1]), KeyOffset(1));
    hm.set(peer(0, &[2]), KeyOffset(2));
    hm.set(peer(0, &[1]), KeyOffset(5));
    assert_eq!(hm.len(), 2);
    assert_eq!(hm.entries, vec![(peer(0, &[1]), KeyOffset(5)), (peer(0, &[2]), KeyOffset(2))]);
}

#[test]
fn delay_factor_is_position_in_sorted_order() {
    let a = peer(0, &[1, 9]);
    let b = peer(0, &[2, 0]);
    let c = peer(0, &[2, 1]);
    let d = peer(1, &[0]);
    let ids = vec![d.clone(), c.clone(), a.clone(), b.clone()];
    assert_eq!(delay_factor(&a, &ids), 0);
    assert_eq!(delay_factor(&b, &ids), 1);
    assert_eq!(delay_factor(&c, &ids), 2);
    assert_eq!(delay_factor(&d, &ids), 3);
}

#[test]
fn shorter_digest_comes_first() {
    let short = peer(0, &[9]);
    let long = peer(0, &[1, 1]);
    assert!(short.precedes(&long));
    assert!(!long.precedes(&short));
    assert!(!short.precedes(&short));
    assert!(short.same(&short.duplicate()));
    assert!(!short.same(&long));
}
