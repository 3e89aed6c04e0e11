use std::collections::HashMap;

use maroon::app::{App, CurrentOffsets, Inbox, NodeState, Outbox, Params, Request, Response};
use maroon::peer::PeerId;
use maroon::range_key::UniqueU64BlobId;
use maroon::transaction::{Transaction, TxStatus};

fn test_tx(id: u64) -> Transaction {
    Transaction { id: UniqueU64BlobId(id), status: TxStatus::Pending }
}

fn peer(code: u64, digest: &[u8]) -> PeerId {
    PeerId { code, digest: digest.to_vec() }
}

fn state_of(app: &App) -> CurrentOffsets {
    let Response::State(state) = app.handle_request(Request::GetState);
    state
}

fn new_app() -> App {
    App::new(peer(0, &[0, 0, 7]), Params::default())
}

#[test]
fn params_default_and_setters() {
    let p = Params::default();
    assert_eq!(p.advertise_period, 5000);
    assert_eq!(p.consensus_nodes, 2);
    assert_eq!(p.epoch_period, 10000);
    let q = p.set_advertise_period(500).set_consensus_nodes(3).set_epoch_period(700);
    assert_eq!(q, Params { advertise_period: 500, consensus_nodes: 3, epoch_period: 700 });
}

#[test]
fn app_tests_app_gets_missing_transaction() {
    let mut app = new_app();
    app.handle_inbox_message(Inbox::NewTransaction(test_tx(5)));
    app.handle_inbox_message(Inbox::NewTransaction(test_tx(0)));
    assert_eq!(
        state_of(&app),
        CurrentOffsets { self_offsets: HashMap::from([(0, 0)]), consensus_offset: HashMap::new() }
    );

    app.handle_inbox_message(Inbox::MissingTx(vec![
        test_tx(3),
        test_tx(4),
        test_tx(2),
        test_tx(0),
        test_tx(1),
    ]));
    assert_eq!(
        state_of(&app),
        CurrentOffsets { self_offsets: HashMap::from([(0, 5)]), consensus_offset: HashMap::new() }
    );
}

#[test]
fn app_tests_single_app_gets_missing_transaction() {
    let mut app = new_app();
    app.handle_inbox_message(Inbox::NewTransaction(test_tx(5)));
    app.handle_inbox_message(Inbox::NewTransaction(test_tx(0)));
    assert_eq!(
        state_of(&app),
        CurrentOffsets { self_offsets: HashMap::from([(0, 0)]), consensus_offset: HashMap::new() }
    );

    app.handle_inbox_message(Inbox::MissingTx(vec![
        test_tx(3),
        test_tx(4),
        test_tx(2),
        test_tx(0),
        test_tx(1),
    ]));
    assert_eq!(
        state_of(&app),
        CurrentOffsets { self_offsets: HashMap::from([(0, 5)]), consensus_offset: HashMap::new() }
    );
}

#[test]
fn app_calculates_consensus_offset() {
    let mut app = new_app();
    let n1_peer_id = peer(0, &[1]);
    let n2_peer_id = peer(0, &[2]);
    app.handle_inbox_message(Inbox::State((
        n1_peer_id,
        NodeState { offsets: HashMap::from([(1, 3), (2, 7), (4, 1)]) },
    )));
    app.handle_inbox_message(Inbox::State((
        n2_peer_id,
        NodeState { offsets: HashMap::from([(1, 2), (2, 9)]) },
    )));
    assert!(app.can_advertise());
    app.advertise_offsets_and_request_missing();
    assert_eq!(
        state_of(&app),
        CurrentOffsets {
            self_offsets: HashMap::new(),
            consensus_offset: HashMap::from([(1, 2), (2, 7)]),
        }
    );
}

#[test]
fn app_gets_missing_transactions_that_smbd_else_requested() {
    let mut app = new_app();
    for id in [2, 3, 1, 0, 4] {
        app.handle_inbox_message(Inbox::NewTransaction(test_tx(id)));
    }
    assert_eq!(
        state_of(&app),
        CurrentOffsets { self_offsets: HashMap::from([(0, 4)]), consensus_offset: HashMap::new() }
    );

    let rnd_peer = peer(0, &[9, 9]);
    let ranges = vec![(UniqueU64BlobId(1), UniqueU64BlobId(3))];
    assert!(app.can_serve(&ranges));
    let reaction = app.handle_inbox_message(Inbox::RequestMissingTxs((rnd_peer.clone(), ranges)));
    assert_eq!(
        reaction.outbox,
        vec![Outbox::RequestedTxsForPeer((rnd_peer, vec![test_tx(1), test_tx(2), test_tx(3)]))]
    );
    assert_eq!(reaction.delay_factor, None);
}

#[test]
fn app_answers_a_request_with_the_stored_transactions_only() {
    let mut app = new_app();
    for id in [0, 1, 3] {
        app.handle_inbox_message(Inbox::NewTransaction(test_tx(id)));
    }
    let q = peer(0, &[4]);
    let ranges = vec![(UniqueU64BlobId(0), UniqueU64BlobId(3))];
    assert!(app.can_serve(&ranges));
    let reaction = app.handle_inbox_message(Inbox::RequestMissingTxs((q.clone(), ranges)));
    assert_eq!(
        reaction.outbox,
        vec![Outbox::RequestedTxsForPeer((q, vec![test_tx(0), test_tx(1), test_tx(3)]))]
    );
    assert!(!app.can_serve(&vec![(UniqueU64BlobId(3), UniqueU64BlobId(2))]));
}

#[test]
fn app_detects_that_its_behind_and_makes_request() {
    let mut app = new_app();
    app.handle_inbox_message(Inbox::NewTransaction(test_tx(0)));
    app.handle_inbox_message(Inbox::NewTransaction(test_tx(4)));
    assert_eq!(
        state_of(&app),
        CurrentOffsets { self_offsets: HashMap::from([(0, 0)]), consensus_offset: HashMap::new() }
    );

    let rnd_peer = peer(0, &[9, 9]);
    app.handle_inbox_message(Inbox::State((rnd_peer.clone(), NodeState { offsets: HashMap::from([(0, 8)]) })));
    let outbox = app.advertise_offsets_and_request_missing();
    assert_eq!(outbox[0], Outbox::State(NodeState { offsets: HashMap::from([(0, 0)]) }));
    assert_eq!(
        outbox[1..],
        [Outbox::RequestMissingTxs((
            rnd_peer,
            vec![
                (UniqueU64BlobId(1), UniqueU64BlobId(3)),
                (UniqueU64BlobId(5), UniqueU64BlobId(8)),
            ]
        ))]
    );
}

#[test]
fn app_reports_its_position_among_nodes() {
    let mut app = new_app();
    let nodes = vec![peer(0, &[0, 0, 9]), peer(0, &[0, 0, 7]), peer(0, &[0, 0, 1])];
    let reaction = app.handle_inbox_message(Inbox::Nodes(nodes));
    assert_eq!(reaction.delay_factor, Some(1));
    assert!(reaction.outbox.is_empty());
}

#[test]
fn committing_an_epoch_catches_up_with_consensus() {
    let mut app = new_app();
    app.handle_inbox_message(Inbox::State((peer(0, &[1]), NodeState { offsets: HashMap::from([(0, 4), (1, 2)]) })));
    app.handle_inbox_message(Inbox::State((peer(0, &[2]), NodeState { offsets: HashMap::from([(0, 6), (1, 3)]) })));
    app.advertise_offsets_and_request_missing();
    assert!(app.can_commit());
    app.commit_epoch_if_needed();
    assert_eq!(app.epochs().len(), 1);
    let mut incs = app.epochs()[0].increments.clone();
    incs.sort();
    let second_range = 1u64 << 30;
    assert_eq!(
        incs,
        vec![
            (UniqueU64BlobId(0), UniqueU64BlobId(4)),
            (UniqueU64BlobId(second_range), UniqueU64BlobId(second_range + 2)),
        ]
    );
    assert_eq!(app.commited_offsets(), &HashMap::from([(0, 4), (1, 2)]));

    app.commit_epoch_if_needed();
    assert_eq!(app.epochs().len(), 2);
    assert!(app.epochs()[1].increments.is_empty());
    assert_ne!(app.epochs()[0].hash, app.epochs()[1].hash);
}
