use distributed_image_cloud::balancer::pick_lowest_score;
use distributed_image_cloud::client::Client;
use distributed_image_cloud::messages::{Framing, Message};
use distributed_image_cloud::monitor::{LogBuffer, LogEntry, LogLevel, MAX_LOG_ENTRIES};

#[test]
fn test_client_creation() {
    let addresses = vec!["127.0.0.1:8001".to_string()];
    let client = Client::new(1, addresses.clone());
    assert_eq!(client.id, 1);
    assert_eq!(client.cloud_addresses, addresses);
}

#[test]
fn client_reads_replies() {
    let ok = Message::SessionRegisterResponse { success: true, error: None };
    assert_eq!(Client::register_outcome(ok), Ok(()));
    let taken = Message::SessionRegisterResponse {
        success: false,
        error: Some("username in use".to_string()),
    };
    assert_eq!(Client::register_outcome(taken), Err("username in use".to_string()));
    let bare = Message::SessionRegisterResponse { success: false, error: None };
    assert_eq!(Client::register_outcome(bare), Err("Registration failed".to_string()));
    assert!(Client::register_outcome(Message::CoordinatorQuery).is_err());

    let view = Message::ViewImageResponse {
        success: true,
        image_data: Some(vec![1]),
        remaining_views: Some(3),
        error: None,
    };
    assert_eq!(Client::view_outcome(view), Ok((vec![1], 3)));
    let refused = Message::ViewImageResponse {
        success: false,
        image_data: None,
        remaining_views: Some(0),
        error: Some("No views remaining".to_string()),
    };
    assert_eq!(Client::view_outcome(refused), Err("No views remaining".to_string()));
    let avail = Message::CheckUsernameAvailableResponse {
        username: "a".to_string(),
        is_available: false,
    };
    assert_eq!(Client::availability_outcome(avail), Ok(false));
}

#[test]
fn score_formula_values() {
    // total = 10: scores 7*2*10+300*5 = 1640, 7*1*10+300*5 = 1570, 7*3*10+0 = 210.
    assert_eq!(pick_lowest_score(&vec![(1, 2, 5), (2, 1, 5), (3, 3, 0)]), 3);
    // No work done: the lowest load wins, the lowest id among equals.
    assert_eq!(pick_lowest_score(&vec![(4, 1, 0), (2, 1, 0), (3, 2, 0)]), 2);
}

#[test]
fn log_buffer_keeps_most_recent() {
    let mut log = LogBuffer::new();
    for i in 0..(MAX_LOG_ENTRIES + 5) {
        log.add(LogEntry {
            timestamp: format!("{}", i),
            level: LogLevel::Info,
            message: format!("entry {}", i),
        });
    }
    assert_eq!(log.len(), MAX_LOG_ENTRIES);
    assert_eq!(log.get(0).message, "entry 5");
    assert_eq!(log.get(MAX_LOG_ENTRIES - 1).level, LogLevel::Info);
}

#[test]
fn encryption_replies_are_built_exactly() {
    match Message::encryption_result("R".to_string(), Ok(vec![1, 2])) {
        Message::EncryptionResponse { request_id, encrypted_image, success: true, error: None } => {
            assert_eq!(request_id, "R");
            assert_eq!(encrypted_image, vec![1, 2]);
        }
        other => panic!("unexpected {:?}", other),
    }
    match Message::unreachable_response("R".to_string(), "Peer unreachable: timeout".to_string()) {
        Message::EncryptionResponse { encrypted_image, success: false, error: Some(e), .. } => {
            assert!(encrypted_image.is_empty());
            assert_eq!(e, "Peer unreachable: timeout");
        }
        other => panic!("unexpected {:?}", other),
    }
    assert_eq!(Message::retry_backoff_ms(2), 200);
}

#[test]
fn score_is_exact_for_large_figures() {
    let big = u64::MAX - 10;
    // Same load; far more past work on peer 1, both beyond 32 bits.
    assert_eq!(pick_lowest_score(&vec![(1, 5, big), (2, 5, big - 1)]), 2);
    // Loads 43 apart decide alone, whatever the shares.
    assert_eq!(pick_lowest_score(&vec![(1, 100, 0), (2, 143, 0), (3, 0, 0)]), 3);
    assert_eq!(pick_lowest_score(&vec![(1, 0, big), (2, 43, 0)]), 1);
    // Loads 42 apart: the share can outweigh them (0.7 * 42 = 29.4 < 30).
    assert_eq!(pick_lowest_score(&vec![(1, 0, 100), (2, 42, 0)]), 2);
    // 0.7 less load does not make up for a share of 30.
    assert_eq!(pick_lowest_score(&vec![(1, u64::MAX, 0), (2, u64::MAX - 1, 1)]), 1);
}

#[test]
fn framing_follows_kind_and_size() {
    let req = Message::EncryptionRequest {
        request_id: "r".to_string(),
        client_username: "u".to_string(),
        image_data: vec![],
        usernames: vec![],
        quota: 1,
        forwarded: false,
        client_address: None,
    };
    assert_eq!(req.framing(45000), Framing::Whole);
    assert_eq!(req.framing(45001), Framing::Chunked);
    let query = Message::LoadQuery { from_node: 1 };
    assert_eq!(query.framing(65507), Framing::Whole);
    assert_eq!(query.framing(65508), Framing::TooLarge);
}
