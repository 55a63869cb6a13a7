use distributed_image_cloud::chunking::ChunkedMessage;
use distributed_image_cloud::messages::{Message, NodeId, NodeState};
use distributed_image_cloud::node::{Action, ChunkOutcome, CloudNode};
use std::collections::HashMap;

const CLIENT: &str = "10.0.0.9:5000";

fn address(id: NodeId) -> String {
    format!("127.0.0.1:{}", 8000 + id)
}

fn peer(id: NodeId, all: &[NodeId], now_ms: u64) -> CloudNode {
    let peers: HashMap<NodeId, String> =
        all.iter().filter(|p| **p != id).map(|p| (*p, address(*p))).collect();
    CloudNode::new(id, address(id), peers, now_ms)
}

fn request(id: &str, forwarded: bool, client_address: Option<String>) -> Message {
    Message::EncryptionRequest {
        request_id: id.to_string(),
        client_username: "carol".to_string(),
        image_data: vec![1, 2, 3],
        usernames: vec!["dave".to_string()],
        quota: 2,
        forwarded,
        client_address,
    }
}

fn deliver_coordinator(nodes: &mut [&mut CloudNode], out: Vec<(NodeId, Message)>, from: NodeId) {
    for (to, msg) in out {
        for n in nodes.iter_mut() {
            if n.id == to {
                let r = n.handle_message(msg.clone(), &address(from), 0, 0);
                assert!(matches!(r, Action::Drop));
            }
        }
    }
}

fn heartbeat(from: NodeId, load: u64, processed: u64) -> Message {
    Message::HeartbeatAck { from_node: from, load, processed_count: processed }
}

#[test]
fn election_of_three_idle_peers_converges_on_lowest_id() {
    let all = [1, 2, 3];
    let mut n1 = peer(1, &all, 0);
    let mut n2 = peer(2, &all, 0);
    let mut n3 = peer(3, &all, 0);
    let targets = n1.election_targets();
    assert_eq!(targets.len(), 2);
    let (result, out) = n1.conclude_election(&vec![(2, 0), (3, 0)]).unwrap();
    assert_eq!(result.coordinator_id, 1);
    deliver_coordinator(&mut [&mut n2, &mut n3], out, 1);
    for n in [&n1, &n2, &n3] {
        assert_eq!(n.election_manager.get_coordinator(), Some(1));
    }
    assert!(n1.get_stats().is_coordinator);
    assert!(!n2.get_stats().is_coordinator);
}

#[test]
fn request_travels_to_least_loaded_worker() {
    let all = [1, 2, 3];
    let mut n1 = peer(1, &all, 0);
    let mut n2 = peer(2, &all, 0);
    let mut n3 = peer(3, &all, 0);
    for n in [&mut n1, &mut n2, &mut n3] {
        n.handle_message(Message::Coordinator { node_id: 1, load: 0 }, &address(1), 0, 0);
    }
    // Peer 2 is busy with the request; peer 3 has reported no load.
    n1.handle_message(heartbeat(2, 1, 0), &address(2), 0, 0);
    n1.handle_message(heartbeat(3, 0, 0), &address(3), 0, 0);

    let at2 = n2.handle_message(request("R1", false, None), &CLIENT.to_string(), 0, 0);
    assert_eq!(n2.active_requests, 1);
    let forwarded = match at2 {
        Action::Forward { target: 1, request } => request,
        other => panic!("expected a forward to the coordinator, got {:?}", other),
    };
    match &forwarded {
        Message::EncryptionRequest { forwarded: false, client_address: Some(a), .. } => {
            assert_eq!(a, CLIENT)
        }
        other => panic!("unexpected forward {:?}", other),
    }

    let at1 = n1.handle_message(forwarded, &address(2), 0, 0);
    let to_worker = match at1 {
        Action::Forward { target: 3, request } => request,
        other => panic!("expected a forward to peer 3, got {:?}", other),
    };
    match &to_worker {
        Message::EncryptionRequest { forwarded: true, client_address: Some(a), .. } => {
            assert_eq!(a, CLIENT)
        }
        other => panic!("unexpected forward {:?}", other),
    }

    let at3 = n3.handle_message(to_worker, &address(1), 0, 0);
    match at3 {
        Action::EncryptLocally { request_id, client_address: Some(a), quota: 2, .. } => {
            assert_eq!(request_id, "R1");
            assert_eq!(a, CLIENT);
        }
        other => panic!("expected local execution, got {:?}", other),
    }
    assert_eq!(n3.active_requests, 1);

    let id = "R1".to_string();
    n3.finish_encryption(&id, true);
    n1.finish_encryption(&id, false);
    n2.finish_encryption(&id, false);
    assert_eq!(n3.processed_requests, 1);
    assert_eq!(n2.active_requests, 0);
    assert_eq!(n3.active_requests, 0);
    assert_eq!(n1.active_requests, 0);
}

#[test]
fn duplicate_request_is_dropped_until_finished() {
    let mut n = peer(1, &[1], 0);
    let client = CLIENT.to_string();
    let first = n.handle_message(request("X", false, None), &client, 0, 0);
    assert!(matches!(first, Action::EncryptLocally { .. }));
    let second = n.handle_message(request("X", false, None), &client, 0, 0);
    assert!(matches!(second, Action::Drop));
    assert_eq!(n.active_requests, 1);
    let forced = n.handle_message(request("X", true, None), &client, 0, 0);
    assert!(matches!(forced, Action::EncryptLocally { .. }));
    assert_eq!(n.active_requests, 2);
    n.finish_encryption(&"X".to_string(), true);
    n.finish_encryption(&"X".to_string(), false);
    assert_eq!(n.active_requests, 0);
    let again = n.handle_message(request("X", false, None), &client, 0, 0);
    assert!(matches!(again, Action::EncryptLocally { .. }));
}

#[test]
fn finishing_saturates_at_zero() {
    let mut n = peer(1, &[1], 0);
    n.finish_encryption(&"never".to_string(), false);
    assert_eq!(n.active_requests, 0);
}

#[test]
fn failed_peer_absorbs_everything() {
    let all = [1, 2];
    let mut n = peer(1, &all, 0);
    n.fail();
    assert_eq!(n.state, NodeState::Failed);
    let src = address(2);
    for msg in [
        Message::LoadQuery { from_node: 2 },
        Message::Heartbeat { from_node: 2, load: 0, processed_count: 0 },
        Message::SessionRegister { client_id: "c".to_string(), username: "u".to_string() },
        request("Z", true, None),
        Message::Election { from_node: 2 },
    ] {
        assert!(matches!(n.handle_message(msg, &src, 0, 0), Action::Drop));
    }
    assert!(n.heartbeats().is_empty());
    assert!(n.election_targets().is_empty());
    assert!(n.conclude_election(&vec![(2, 0)]).is_none());
    let chunk = ChunkedMessage::fragment(vec![1, 2, 3]).remove(0);
    assert!(matches!(n.handle_chunk(chunk, 0), ChunkOutcome::Nothing));
    assert_eq!(n.active_requests, 0);
    assert!(n.active_sessions.is_available(&"u".to_string()));

    n.begin_recovery();
    assert_eq!(n.state, NodeState::Recovering);
    assert!(matches!(
        n.handle_message(Message::LoadQuery { from_node: 2 }, &src, 0, 0),
        Action::Reply(Message::LoadResponse { node_id: 1, .. })
    ));
    n.finish_recovery();
    assert_eq!(n.state, NodeState::Active);
    assert_eq!(n.heartbeats().len(), 1);
}

#[test]
fn detector_marks_after_ten_seconds_and_heartbeat_clears() {
    let all = [1, 2];
    let mut n = peer(1, &all, 0);
    n.handle_message(heartbeat(2, 0, 0), &address(2), 20_000, 0);
    assert!(!n.detector_tick(30_000));
    assert!(!n.detector.is_failed(2));
    n.detector_tick(30_001);
    assert!(n.detector.is_failed(2));
    n.handle_message(heartbeat(2, 0, 0), &address(2), 30_002, 0);
    assert!(!n.detector.is_failed(2));
    n.detector_tick(33_000);
    assert!(!n.detector.is_failed(2));
}

#[test]
fn detector_waits_for_startup_grace() {
    let all = [1, 2];
    let mut n = peer(1, &all, 1000);
    n.detector_tick(15_999);
    assert!(!n.detector.is_failed(2));
    n.detector_tick(16_000);
    assert!(n.detector.is_failed(2));
}

#[test]
fn coordinator_failure_triggers_failover() {
    let all = [1, 2, 3];
    let mut n2 = peer(2, &all, 0);
    let mut n3 = peer(3, &all, 0);
    for n in [&mut n2, &mut n3] {
        n.handle_message(Message::Coordinator { node_id: 1, load: 0 }, &address(1), 0, 0);
    }
    n2.handle_message(heartbeat(1, 0, 0), &address(1), 5_000, 0);
    n2.handle_message(heartbeat(3, 0, 0), &address(3), 14_000, 0);

    // In the gap the request still goes to the dead coordinator.
    let gap = n2.handle_message(request("G", false, None), &CLIENT.to_string(), 15_000, 0);
    assert!(matches!(gap, Action::Forward { target: 1, .. }));
    n2.finish_encryption(&"G".to_string(), false);

    assert!(n2.detector_tick(15_001));
    assert!(n2.detector.is_failed(1));
    assert_eq!(n2.election_targets(), vec![3]);
    let (result, out) = n2.conclude_election(&vec![(3, 0)]).unwrap();
    assert_eq!(result.coordinator_id, 2);
    assert_eq!(n2.election_manager.get_coordinator(), Some(2));
    deliver_coordinator(&mut [&mut n3], out, 2);
    assert_eq!(n3.election_manager.get_coordinator(), Some(2));

    let next = n2.handle_message(request("H", false, None), &CLIENT.to_string(), 16_000, 0);
    assert!(matches!(next, Action::EncryptLocally { .. } | Action::Forward { target: 3, .. }));
}

#[test]
fn reply_is_cached_and_missing_chunk_resent() {
    let all = [1, 2];
    let mut sender = peer(1, &all, 0);
    let mut receiver = peer(2, &all, 0);
    let payload: Vec<u8> = (0..200 * 1024).map(|i: usize| (i % 241) as u8).collect();
    let chunks = sender.prepare_reply(payload.clone(), 0);
    assert_eq!(chunks.len(), 5);
    let mut id = String::new();
    for (i, c) in chunks.iter().enumerate() {
        match c {
            ChunkedMessage::MultiPacket { chunk_id, chunk_index, total_chunks, .. } => {
                if i == 0 {
                    id = chunk_id.clone();
                }
                assert_eq!(chunk_id, &id);
                assert_eq!(*chunk_index, i as u32);
                assert_eq!(*total_chunks, 5);
            }
            _ => panic!("expected MultiPacket"),
        }
    }
    for (i, c) in chunks.iter().enumerate() {
        if i != 2 {
            assert!(matches!(receiver.handle_chunk(c.clone(), 10), ChunkOutcome::Nothing));
        }
    }
    let missing = receiver.chunk_reassembler.missing_indices(&id).unwrap();
    assert_eq!(missing, vec![2]);
    let ask = ChunkedMessage::RetransmitRequest { chunk_id: id.clone(), missing_indices: missing };
    let resent = match sender.handle_chunk(ask, 20) {
        ChunkOutcome::Resend(v) => v,
        other => panic!("expected a resend, got {:?}", other),
    };
    assert_eq!(resent.len(), 1);
    match receiver.handle_chunk(resent[0].clone(), 30) {
        ChunkOutcome::Deliver(bytes) => assert_eq!(bytes, payload),
        other => panic!("expected delivery, got {:?}", other),
    }
    let unknown = ChunkedMessage::RetransmitRequest {
        chunk_id: "gone".to_string(),
        missing_indices: vec![0],
    };
    assert!(matches!(sender.handle_chunk(unknown, 40), ChunkOutcome::Nothing));
}

#[test]
fn sessions_and_images_through_the_router() {
    let mut n = peer(1, &[1], 0);
    let client = CLIENT.to_string();
    let reg = |user: &str| Message::SessionRegister {
        client_id: "c1".to_string(),
        username: user.to_string(),
    };
    assert!(matches!(
        n.handle_message(reg("alice"), &client, 0, 0),
        Action::Reply(Message::SessionRegisterResponse { success: true, error: None })
    ));
    match n.handle_message(reg("alice"), &client, 0, 0) {
        Action::Reply(Message::SessionRegisterResponse { success: false, error: Some(e) }) => {
            assert_eq!(e, "username in use")
        }
        other => panic!("unexpected {:?}", other),
    }
    assert!(matches!(
        n.handle_message(
            Message::CheckUsernameAvailable { username: "bob".to_string() },
            &client,
            0,
            0
        ),
        Action::Reply(Message::CheckUsernameAvailableResponse { is_available: true, .. })
    ));

    let send = Message::SendImage {
        from_username: "alice".to_string(),
        to_usernames: vec!["bob".to_string()],
        encrypted_image: vec![9, 9],
        max_views: 2,
        image_id: "i1".to_string(),
    };
    assert!(matches!(
        n.handle_message(send, &client, 0, 1234),
        Action::Reply(Message::SendImageResponse { success: true, .. })
    ));
    match n.handle_message(Message::QueryReceivedImages { username: "bob".to_string() }, &client, 0, 0)
    {
        Action::Reply(Message::QueryReceivedImagesResponse { images }) => {
            assert_eq!(images.len(), 1);
            assert_eq!(images[0].image_id, "i1");
            assert_eq!(images[0].timestamp, 1234);
        }
        other => panic!("unexpected {:?}", other),
    }
    let view = || Message::ViewImage { username: "bob".to_string(), image_id: "i1".to_string() };
    for left in [1u32, 0] {
        match n.handle_message(view(), &client, 0, 0) {
            Action::Reply(Message::ViewImageResponse {
                success: true,
                image_data: Some(d),
                remaining_views: Some(r),
                error: None,
            }) => {
                assert_eq!(d, vec![9, 9]);
                assert_eq!(r, left);
            }
            other => panic!("unexpected {:?}", other),
        }
    }
    match n.handle_message(view(), &client, 0, 0) {
        Action::Reply(Message::ViewImageResponse {
            success: false,
            image_data: None,
            remaining_views: Some(0),
            error: Some(e),
        }) => assert_eq!(e, "No views remaining"),
        other => panic!("unexpected {:?}", other),
    }
}

#[test]
fn control_messages_are_answered() {
    let all = [1, 2];
    let mut n = peer(1, &all, 0);
    let src = address(2);
    assert!(matches!(
        n.handle_message(Message::Heartbeat { from_node: 2, load: 3, processed_count: 4 }, &src, 7, 0),
        Action::Reply(Message::HeartbeatAck { from_node: 1, load: 0, processed_count: 0 })
    ));
    assert_eq!(n.detector.cached_load(2).unwrap().load, 3);
    match n.handle_message(Message::Election { from_node: 2 }, &src, 0, 0) {
        Action::SendToPeers(out) => assert_eq!(out.len(), 2),
        other => panic!("unexpected {:?}", other),
    }
    match n.handle_message(Message::StateSync { from_node: 2 }, &src, 0, 99) {
        Action::Reply(Message::StateSyncResponse { coordinator_id: 1, timestamp: 99, .. }) => {}
        other => panic!("unexpected {:?}", other),
    }
    n.handle_message(Message::Coordinator { node_id: 2, load: 0 }, &src, 0, 0);
    match n.handle_message(Message::CoordinatorQuery, &src, 0, 0) {
        Action::Reply(Message::CoordinatorQueryResponse { coordinator_address }) => {
            assert_eq!(coordinator_address, address(2))
        }
        other => panic!("unexpected {:?}", other),
    }
    let decrypt = Message::DecryptionRequest {
        request_id: "D".to_string(),
        client_username: "x".to_string(),
        encrypted_image: vec![1],
        usernames: vec![],
        quota: 0,
    };
    assert!(matches!(n.handle_message(decrypt, &src, 0, 0), Action::DecryptLocally { .. }));
}

#[test]
fn balancer_prefers_less_past_work() {
    let all = [1, 2, 3];
    let mut n = peer(1, &all, 0);
    n.processed_requests = 8;
    n.handle_message(heartbeat(2, 0, 2), &address(2), 0, 0);
    n.handle_message(heartbeat(3, 0, 0), &address(3), 0, 0);
    assert_eq!(n.find_lowest_load_node(), 3);
    n.handle_message(heartbeat(3, 1, 0), &address(3), 0, 0);
    // Scores: peer 1 = 24, peer 2 = 6, peer 3 = 0.7.
    assert_eq!(n.find_lowest_load_node(), 3);
    n.handle_message(heartbeat(3, 9, 0), &address(3), 0, 0);
    assert_eq!(n.find_lowest_load_node(), 2);
}

#[test]
fn buffers_expire_after_their_lifetimes() {
    let all = [1, 2];
    let mut n = peer(1, &all, 0);
    let reply = n.prepare_reply(vec![5u8; 100_000], 1_000);
    assert_eq!(reply.len(), 3);
    let partial = ChunkedMessage::fragment(vec![6u8; 100_000]);
    n.handle_chunk(partial[0].clone(), 1_000);
    let id = match &reply[0] {
        ChunkedMessage::MultiPacket { chunk_id, .. } => chunk_id.clone(),
        _ => panic!("expected MultiPacket"),
    };
    let ask = || ChunkedMessage::RetransmitRequest { chunk_id: id.clone(), missing_indices: vec![0] };
    n.expire_buffers(31_000);
    assert_eq!(n.chunk_reassembler.stats().0, 1);
    n.expire_buffers(31_001);
    assert_eq!(n.chunk_reassembler.stats().0, 0);
    assert!(matches!(n.handle_chunk(ask(), 31_001), ChunkOutcome::Resend(_)));
    n.expire_buffers(61_001);
    assert!(matches!(n.handle_chunk(ask(), 61_001), ChunkOutcome::Nothing));
}

#[test]
fn reports_of_failed_peers_are_ignored() {
    let all = [1, 2, 3];
    let mut n = peer(1, &all, 0);
    n.handle_message(heartbeat(3, 0, 0), &address(3), 15_000, 0);
    n.active_requests = 5;
    n.detector_tick(16_000);
    assert!(n.detector.is_failed(2));
    // Peer 2 is believed failed: its low load does not make it coordinator.
    let (result, _) = n.conclude_election(&vec![(2, 0), (3, 4)]).unwrap();
    assert_eq!(result.coordinator_id, 3);
    assert_eq!(n.election_manager.get_coordinator(), Some(3));
}
