use distributed_image_cloud::election::{choose_winner, ElectionManager};
use distributed_image_cloud::messages::{Message, NodeId};
use std::collections::HashMap;

fn addresses(ids: &[NodeId]) -> HashMap<NodeId, String> {
    ids.iter().map(|id| (*id, format!("127.0.0.1:{}", 8000 + id))).collect()
}

#[test]
fn test_election_manager_creation() {
    let mut addresses = HashMap::new();
    addresses.insert(1, "127.0.0.1:8001".to_string());
    addresses.insert(2, "127.0.0.1:8002".to_string());

    let manager = ElectionManager::new(1, addresses);
    assert_eq!(manager.node_id, 1);
    assert_eq!(manager.current_coordinator, None);
}

#[test]
fn test_coordinator_announcement() {
    let mut addresses = HashMap::new();
    addresses.insert(1, "127.0.0.1:8001".to_string());

    let mut manager = ElectionManager::new(1, addresses);

    let sent = manager.announce_coordinator(0);
    assert!(sent.is_empty());

    assert_eq!(manager.current_coordinator, Some(1));
    assert!(manager.is_coordinator());
}

#[test]
fn announcement_reaches_every_other_peer() {
    let mut manager = ElectionManager::new(1, addresses(&[1, 2, 3]));
    let mut sent = manager.announce_coordinator(4);
    sent.sort_by_key(|(to, _)| *to);
    let targets: Vec<NodeId> = sent.iter().map(|(to, _)| *to).collect();
    assert_eq!(targets, vec![2, 3]);
    for (_, m) in &sent {
        assert!(matches!(m, Message::Coordinator { node_id: 1, load: 4 }));
    }
}

#[test]
fn winner_is_lowest_load_then_lowest_id() {
    assert_eq!(choose_winner(&vec![(3, 0), (1, 0), (2, 0)]), (1, 0));
    assert_eq!(choose_winner(&vec![(1, 5), (2, 3), (3, 4)]), (2, 3));
    assert_eq!(choose_winner(&vec![(7, 2)]), (7, 2));
}

#[test]
fn three_peers_converge_on_peer_one() {
    let mut m1 = ElectionManager::new(1, addresses(&[2, 3]));
    let mut m2 = ElectionManager::new(2, addresses(&[1, 3]));
    let mut m3 = ElectionManager::new(3, addresses(&[1, 2]));
    let (result, out) = m1.conclude_election(&vec![(1, 0), (2, 0), (3, 0)]);
    assert_eq!(result.coordinator_id, 1);
    assert_eq!(m1.get_coordinator(), Some(1));
    assert_eq!(out.len(), 2);
    for (to, msg) in out {
        if let Message::Coordinator { node_id, load } = msg {
            match to {
                2 => m2.update_coordinator(node_id, load),
                3 => m3.update_coordinator(node_id, load),
                _ => panic!("unexpected recipient"),
            }
        } else {
            panic!("expected a Coordinator message");
        }
    }
    assert_eq!(m2.get_coordinator(), Some(1));
    assert_eq!(m3.get_coordinator(), Some(1));
}

#[test]
fn hysteresis_keeps_coordinator_for_small_gain() {
    let mut m = ElectionManager::new(1, addresses(&[2, 3]));
    m.update_coordinator(2, 10);
    let (result, out) = m.conclude_election(&vec![(1, 9), (2, 10), (3, 8)]);
    assert_eq!(result.coordinator_id, 3);
    assert_eq!(m.get_coordinator(), Some(2));
    assert!(out.is_empty());
}

#[test]
fn hysteresis_replaces_for_large_gain() {
    let mut m = ElectionManager::new(1, addresses(&[2, 3]));
    m.update_coordinator(2, 10);
    let (_, out) = m.conclude_election(&vec![(1, 9), (2, 10), (3, 7)]);
    assert_eq!(m.get_coordinator(), Some(3));
    assert_eq!(out.len(), 2);
}

#[test]
fn hysteresis_with_idle_coordinator_never_replaces() {
    let mut m = ElectionManager::new(1, addresses(&[2]));
    m.update_coordinator(2, 0);
    let (_, out) = m.conclude_election(&vec![(1, 0), (2, 0)]);
    assert_eq!(m.get_coordinator(), Some(2));
    assert!(out.is_empty());
}

#[test]
fn unreported_coordinator_is_replaced() {
    let mut m = ElectionManager::new(2, addresses(&[1, 3]));
    m.update_coordinator(1, 0);
    let (_, out) = m.conclude_election(&vec![(2, 1), (3, 0)]);
    assert_eq!(m.get_coordinator(), Some(3));
    assert_eq!(out.len(), 2);
}

#[test]
fn election_answer_is_ack_then_load() {
    let m = ElectionManager::new(2, addresses(&[1, 3]));
    let out = m.handle_election_message(1, 3, 9);
    assert_eq!(out.len(), 2);
    assert!(matches!(out[0], (1, Message::ElectionAck { from_node: 2 })));
    assert!(matches!(
        out[1],
        (1, Message::LoadResponse { node_id: 2, load: 3, queue_length: 3, processed_count: 9 })
    ));
    let mut opened = m.start_election();
    opened.sort_by_key(|(to, _)| *to);
    assert_eq!(opened.len(), 2);
    assert!(matches!(opened[0], (1, Message::Election { from_node: 2 })));
    assert!(matches!(opened[1], (3, Message::Election { from_node: 2 })));
}
