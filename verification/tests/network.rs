use maroon::network::{PeerRegistry, PeerSet, Role};
use maroon::peer::PeerId;

fn peer(code: u64, digest: &[u8]) -> PeerId {
    PeerId { code, digest: digest.to_vec() }
}

#[test]
fn registry_tracks_nodes_and_gateways() {
    let me = peer(0, &[0]);
    let mut registry = PeerRegistry::new(me.clone());
    assert_eq!(registry.on_role(peer(0, &[5]), Role::Gateway), None);
    assert_eq!(registry.on_role(peer(0, &[6]), Role::Node), Some(vec![me.clone(), peer(0, &[6])]));
    assert_eq!(registry.on_role(peer(0, &[6]), Role::Node), Some(vec![me.clone(), peer(0, &[6])]));
    assert_eq!(registry.gateways.ids, vec![peer(0, &[5])]);

    assert_eq!(registry.on_connection_closed(&peer(0, &[5])), None);
    assert!(registry.gateways.ids.is_empty());
    assert_eq!(registry.on_connection_closed(&peer(0, &[6])), Some(vec![me.clone()]));
    assert_eq!(registry.on_connection_closed(&peer(0, &[6])), None);
}

#[test]
fn peer_set_holds_each_peer_once() {
    let mut set = PeerSet::new();
    assert!(set.insert(peer(0, &[1])));
    assert!(!set.insert(peer(0, &[1])));
    assert!(set.insert(peer(0, &[2])));
    assert_eq!(set.len(), 2);
    assert!(set.contains(&peer(0, &[2])));
    assert!(set.remove(&peer(0, &[1])));
    assert!(!set.remove(&peer(0, &[1])));
    assert_eq!(set.to_vec(), vec![peer(0, &[2])]);
}
