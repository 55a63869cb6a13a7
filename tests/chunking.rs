use base64::{engine::general_purpose, Engine as _};
use distributed_image_cloud::chunking::{ChunkReassembler, ChunkedMessage, CHUNK_SIZE};

fn reassemble_in_order(chunks: &[ChunkedMessage]) -> Vec<Option<Vec<u8>>> {
    let mut reassembler = ChunkReassembler::new();
    chunks
        .iter()
        .map(|c| reassembler.process_chunk(c.clone(), 1000))
        .collect()
}

#[test]
fn test_single_packet() {
    let data = vec![1, 2, 3, 4, 5];
    let chunks = ChunkedMessage::fragment(data.clone());

    assert_eq!(chunks.len(), 1);
    match &chunks[0] {
        ChunkedMessage::SinglePacket(encoded) => {
            let decoded = general_purpose::STANDARD.decode(encoded).unwrap();
            assert_eq!(decoded, data);
        }
        _ => panic!("Expected SinglePacket"),
    }
}

#[test]
fn test_multi_packet() {
    let data = vec![42u8; CHUNK_SIZE * 2 + 1000];
    let chunks = ChunkedMessage::fragment(data.clone());

    assert_eq!(chunks.len(), 3);

    for (i, chunk) in chunks.iter().enumerate() {
        match chunk {
            ChunkedMessage::MultiPacket { chunk_index, total_chunks, data: encoded_data, .. } => {
                assert_eq!(*chunk_index, i as u32);
                assert_eq!(*total_chunks, 3);
                let decoded = general_purpose::STANDARD.decode(encoded_data).unwrap();
                assert!(decoded.len() <= CHUNK_SIZE);
            }
            _ => panic!("Expected MultiPacket"),
        }
    }
}

#[test]
fn test_reassembly() {
    let payload_data = vec![42u8; CHUNK_SIZE * 2 + 1000];
    let chunks = ChunkedMessage::fragment(payload_data.clone());

    let mut reassembler = ChunkReassembler::new();

    for chunk in &chunks[0..chunks.len() - 1] {
        let result = reassembler.process_chunk(chunk.clone(), 0);
        assert!(result.is_none());
    }

    let result = reassembler.process_chunk(chunks.last().unwrap().clone(), 0);
    assert!(result.is_some());

    let reassembled = result.unwrap();
    assert_eq!(reassembled, payload_data);
}

#[test]
fn boundary_exactly_chunk_size_is_single_packet() {
    let chunks = ChunkedMessage::fragment(vec![7u8; 45000]);
    assert_eq!(chunks.len(), 1);
    assert!(matches!(chunks[0], ChunkedMessage::SinglePacket(_)));
}

#[test]
fn boundary_one_byte_over_is_two_chunks() {
    let chunks = ChunkedMessage::fragment(vec![7u8; 45001]);
    assert_eq!(chunks.len(), 2);
    match (&chunks[0], &chunks[1]) {
        (
            ChunkedMessage::MultiPacket { chunk_id: a, data: d0, .. },
            ChunkedMessage::MultiPacket { chunk_id: b, data: d1, .. },
        ) => {
            assert_eq!(a, b);
            assert_eq!(general_purpose::STANDARD.decode(d0).unwrap().len(), 45000);
            assert_eq!(general_purpose::STANDARD.decode(d1).unwrap().len(), 1);
        }
        _ => panic!("Expected two MultiPacket chunks"),
    }
}

#[test]
fn round_trip_of_various_sizes() {
    for len in [0usize, 1, 3, 44999, 45000, 45001, 90000, 90001, 204800] {
        let payload: Vec<u8> = (0..len).map(|i| (i * 31 % 251) as u8).collect();
        let chunks = ChunkedMessage::fragment(payload.clone());
        let results = reassemble_in_order(&chunks);
        let (last, earlier) = results.split_last().unwrap();
        assert!(earlier.iter().all(|r| r.is_none()), "early delivery at length {}", len);
        assert_eq!(last.as_ref(), Some(&payload), "length {}", len);
    }
}

#[test]
fn round_trip_of_ten_mebibytes() {
    let payload: Vec<u8> = (0..10 * 1024 * 1024).map(|i: usize| (i % 253) as u8).collect();
    let chunks = ChunkedMessage::fragment(payload.clone());
    assert_eq!(chunks.len(), 234);
    let results = reassemble_in_order(&chunks);
    assert_eq!(results.last().unwrap().as_ref(), Some(&payload));
}

#[test]
fn reassembly_in_reverse_order() {
    let payload: Vec<u8> = (0..200 * 1024).map(|i: usize| (i % 256) as u8).collect();
    let mut chunks = ChunkedMessage::fragment(payload.clone());
    chunks.reverse();
    let results = reassemble_in_order(&chunks);
    assert_eq!(results.last().unwrap().as_ref(), Some(&payload));
}

#[test]
fn fragment_with_id_uses_given_id() {
    let chunks = ChunkedMessage::fragment_with_id(vec![1u8; 100000], "abc".to_string());
    assert_eq!(chunks.len(), 3);
    for (i, c) in chunks.iter().enumerate() {
        match c {
            ChunkedMessage::MultiPacket { chunk_id, chunk_index, total_chunks, .. } => {
                assert_eq!(chunk_id, "abc");
                assert_eq!(*chunk_index, i as u32);
                assert_eq!(*total_chunks, 3);
            }
            _ => panic!("Expected MultiPacket"),
        }
    }
}

#[test]
fn invalid_base64_is_dropped() {
    let mut reassembler = ChunkReassembler::new();
    assert!(reassembler
        .process_chunk(ChunkedMessage::SinglePacket("not base64!".to_string()), 0)
        .is_none());
    let bad = ChunkedMessage::MultiPacket {
        chunk_id: "x".to_string(),
        chunk_index: 0,
        total_chunks: 2,
        data: "@@@".to_string(),
    };
    assert!(reassembler.process_chunk(bad, 0).is_none());
    assert_eq!(reassembler.stats(), (0, 0));
}

#[test]
fn mismatched_total_is_dropped() {
    let mut reassembler = ChunkReassembler::new();
    let part = |index: u32, total: u32| ChunkedMessage::MultiPacket {
        chunk_id: "m".to_string(),
        chunk_index: index,
        total_chunks: total,
        data: general_purpose::STANDARD.encode([index as u8]),
    };
    assert!(reassembler.process_chunk(part(0, 2), 0).is_none());
    assert!(reassembler.process_chunk(part(1, 3), 0).is_none());
    assert_eq!(reassembler.stats(), (1, 1));
    assert_eq!(reassembler.process_chunk(part(1, 2), 0), Some(vec![0u8, 1u8]));
    assert_eq!(reassembler.stats(), (0, 0));
}

#[test]
fn missing_indices_and_cleanup() {
    let payload = vec![9u8; 200 * 1024];
    let chunks = ChunkedMessage::fragment(payload);
    let id = match &chunks[0] {
        ChunkedMessage::MultiPacket { chunk_id, .. } => chunk_id.clone(),
        _ => panic!("Expected MultiPacket"),
    };
    let mut reassembler = ChunkReassembler::new();
    for (i, c) in chunks.iter().enumerate() {
        if i != 2 {
            assert!(reassembler.process_chunk(c.clone(), 1000).is_none());
        }
    }
    assert_eq!(reassembler.missing_indices(&id), Some(vec![2u32]));
    assert_eq!(reassembler.missing_indices(&"other".to_string()), None);
    assert_eq!(reassembler.stats(), (1, 4));
    reassembler.cleanup_expired(31000);
    assert_eq!(reassembler.stats(), (1, 4));
    reassembler.cleanup_expired(31001);
    assert_eq!(reassembler.stats(), (0, 0));
}

#[test]
fn receiver_asks_for_missing_chunks_after_wait() {
    let payload = vec![3u8; 200 * 1024];
    let chunks = ChunkedMessage::fragment(payload);
    let mut reassembler = ChunkReassembler::new();
    for (i, c) in chunks.iter().enumerate() {
        if i != 1 && i != 3 {
            reassembler.process_chunk(c.clone(), 100);
        }
    }
    assert!(reassembler.retransmit_requests(600, 500).is_empty());
    let asks = reassembler.retransmit_requests(601, 500);
    assert_eq!(asks.len(), 1);
    match &asks[0] {
        ChunkedMessage::RetransmitRequest { missing_indices, .. } => {
            assert_eq!(missing_indices, &vec![1u32, 3u32])
        }
        _ => panic!("Expected RetransmitRequest"),
    }
}

#[test]
fn stats_count_distinct_chunks_held() {
    let chunks = ChunkedMessage::fragment(vec![7u8; 204800]);
    let mut r = ChunkReassembler::new();
    assert_eq!(r.stats(), (0, 0));
    for i in [0usize, 1, 3, 4] {
        assert!(r.process_chunk(chunks[i].clone(), 0).is_none());
    }
    assert!(r.process_chunk(chunks[1].clone(), 0).is_none());
    assert_eq!(r.stats(), (1, 4));
    assert_eq!(r.process_chunk(chunks[2].clone(), 0), Some(vec![7u8; 204800]));
    assert_eq!(r.stats(), (0, 0));
}

#[test]
fn out_of_range_index_is_stored_without_completing() {
    let mut r = ChunkReassembler::new();
    let part = |index: u32| ChunkedMessage::MultiPacket {
        chunk_id: "q".to_string(),
        chunk_index: index,
        total_chunks: 2,
        data: general_purpose::STANDARD.encode([index as u8]),
    };
    assert!(r.process_chunk(part(5), 0).is_none());
    assert_eq!(r.stats(), (1, 1));
    assert_eq!(r.missing_indices(&"q".to_string()), Some(vec![0u32, 1u32]));
    assert!(r.process_chunk(part(0), 0).is_none());
    assert_eq!(r.process_chunk(part(1), 0), Some(vec![0u8, 1u8]));
    assert_eq!(r.stats(), (0, 0));
}
