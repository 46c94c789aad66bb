use gabion::cells::{CounterCell, NodeId, ShardDigest};
use gabion::messages::{
    decode_authenticated_message, decode_authenticated_message_visit_checked, decode_message,
    decode_message_visit, decode_message_visit_checked, decode_message_with_limits,
    encode_authenticated_message, encode_message, DecodeError, GossipHeader, GossipLimits,
    GossipMessage, GossipMetrics, CELL_LEN, DIGEST_LEN, HEADER_LEN,
};
use gabion::wire::HmacKey;

fn cell(count: u64, origin: u64) -> CounterCell {
    CounterCell {
        rule_id: 1,
        key_hash_hi: 10,
        key_hash_lo: 20,
        bucket_start_millis: 0,
        origin_node_id: NodeId { hi: 0, lo: origin },
        origin_incarnation: 1,
        count,
        last_update_millis: count,
        sequence: 0,
    }
}

#[test]
fn binary_round_trip_reuses_buffer_and_respects_capacity() {
    let message = GossipMessage {
        header: GossipHeader {
            cluster_id_hash: 42,
            sender_node_id: NodeId { hi: 1, lo: 2 },
            sender_incarnation: 7,
            min_bucket: 0,
            max_bucket: 1000,
            flags: 0,
        },
        digests: vec![ShardDigest {
            shard_id: 0,
            active_cell_count: 1,
            max_sequence: 9,
            checksum: 11,
        }],
        cells: vec![cell(5, 1), cell(6, 2)],
        truncated: false,
    };
    let mut buffer = Vec::with_capacity(512);
    let capacity = buffer.capacity();

    let truncated = encode_message(&message, &mut buffer, 512);
    let decoded = decode_message(&buffer, 4, 4).expect("decode");

    assert!(!truncated);
    assert_eq!(buffer.capacity(), capacity);
    assert_eq!(decoded.cells.len(), 2);
    assert_eq!(decoded.digests, message.digests);
    assert_eq!(
        decode_message(&buffer, 0, 4),
        Err(DecodeError::CapacityExceeded)
    );
}

#[test]
fn visitor_decode_reports_cells_without_allocating_message_vectors() {
    let message = GossipMessage {
        header: GossipHeader {
            cluster_id_hash: 42,
            sender_node_id: NodeId { hi: 1, lo: 2 },
            sender_incarnation: 7,
            min_bucket: 0,
            max_bucket: 1000,
            flags: 0,
        },
        digests: vec![ShardDigest {
            shard_id: 0,
            active_cell_count: 1,
            max_sequence: 9,
            checksum: 11,
        }],
        cells: vec![cell(5, 1), cell(6, 2)],
        truncated: false,
    };
    let mut buffer = Vec::with_capacity(512);
    let mut digests: Vec<ShardDigest> = Vec::new();
    let mut cells: Vec<CounterCell> = Vec::new();

    assert!(!encode_message(&message, &mut buffer, 512));
    let summary = decode_message_visit(
        &buffer,
        GossipLimits {
            max_payload_bytes: 512,
            max_digests: 4,
            max_cells: 4,
        },
        &mut digests,
        &mut cells,
    )
    .expect("decode");
    let digest_count = digests.len();
    let cell_count = cells.len();
    let total: u64 = cells.iter().map(|cell| cell.count).sum();

    assert_eq!(summary.digest_count, 1);
    assert_eq!(summary.cell_count, 2);
    assert_eq!(digest_count, 1);
    assert_eq!(cell_count, 2);
    assert_eq!(total, 11);
}

#[test]
fn binary_encode_truncates_to_max_payload() {
    let message = GossipMessage {
        header: GossipHeader {
            cluster_id_hash: 42,
            sender_node_id: NodeId { hi: 1, lo: 2 },
            sender_incarnation: 7,
            min_bucket: 0,
            max_bucket: 1000,
            flags: 0,
        },
        digests: Vec::new(),
        cells: vec![cell(5, 1), cell(6, 2)],
        truncated: false,
    };
    let mut buffer = Vec::with_capacity(HEADER_LEN + CELL_LEN);

    assert!(encode_message(&message, &mut buffer, HEADER_LEN + CELL_LEN));
    let decoded = decode_message(&buffer, 0, 2).expect("decode");

    assert!(decoded.truncated);
    assert_eq!(decoded.cells.len(), 1);
}

#[test]
fn authenticated_message_rejects_tampering() {
    let key = HmacKey::new([7_u8; 32]);
    let message = GossipMessage {
        header: GossipHeader {
            cluster_id_hash: 42,
            sender_node_id: NodeId { hi: 1, lo: 2 },
            sender_incarnation: 7,
            min_bucket: 0,
            max_bucket: 1000,
            flags: 0,
        },
        digests: Vec::new(),
        cells: vec![cell(5, 1)],
        truncated: false,
    };
    let mut buffer = Vec::with_capacity(512);

    assert!(!encode_authenticated_message(
        &message,
        key,
        &mut buffer,
        GossipLimits::default()
    ));
    let decoded =
        decode_authenticated_message(&buffer, key, GossipLimits::default()).expect("decode");
    assert_eq!(decoded.cells.len(), 1);

    let last = buffer.len() - 1;
    buffer[last] ^= 1;
    assert_eq!(
        decode_authenticated_message(&buffer, key, GossipLimits::default()),
        Err(DecodeError::AuthenticationFailed)
    );
}

#[test]
fn authenticated_visitor_decode_rejects_tampering_without_cell_callbacks() {
    let key = HmacKey::new([7_u8; 32]);
    let message = GossipMessage {
        header: GossipHeader {
            cluster_id_hash: 42,
            sender_node_id: NodeId { hi: 1, lo: 2 },
            sender_incarnation: 7,
            min_bucket: 0,
            max_bucket: 1000,
            flags: 0,
        },
        digests: Vec::new(),
        cells: vec![cell(5, 1)],
        truncated: false,
    };
    let mut buffer = Vec::with_capacity(512);
    let mut digests: Vec<ShardDigest> = Vec::new();
    let mut cells: Vec<CounterCell> = Vec::new();

    assert!(!encode_authenticated_message(
        &message,
        key,
        &mut buffer,
        GossipLimits::default()
    ));
    let summary = decode_authenticated_message_visit_checked(
        &buffer,
        key,
        GossipLimits::default(),
        |_| true,
        &mut digests,
        &mut cells,
    )
    .expect("decode");
    assert_eq!(summary.cell_count, 1);
    assert_eq!(cells.len(), 1);

    cells.clear();
    let last = buffer.len() - 1;
    buffer[last] ^= 1;
    assert_eq!(
        decode_authenticated_message_visit_checked(
            &buffer,
            key,
            GossipLimits::default(),
            |_| true,
            &mut digests,
            &mut cells,
        ),
        Err(DecodeError::AuthenticationFailed)
    );
    assert_eq!(cells.len(), 0);
}

#[test]
fn payload_limit_is_enforced_before_decode() {
    let mut buffer = Vec::with_capacity(HEADER_LEN);
    let message = GossipMessage {
        header: GossipHeader {
            cluster_id_hash: 1,
            sender_node_id: NodeId { hi: 1, lo: 2 },
            sender_incarnation: 1,
            min_bucket: 0,
            max_bucket: 0,
            flags: 0,
        },
        digests: Vec::new(),
        cells: Vec::new(),
        truncated: false,
    };

    assert!(!encode_message(&message, &mut buffer, HEADER_LEN));
    assert_eq!(
        decode_message_with_limits(
            &buffer,
            GossipLimits {
                max_payload_bytes: HEADER_LEN - 1,
                max_digests: 0,
                max_cells: 0,
            }
        ),
        Err(DecodeError::PayloadTooLarge)
    );
}

#[test]
fn decoder_fuzz_smoke_returns_errors_without_panics() {
    let mut bytes = [0_u8; 96];
    let mut state = 0x1234_5678_9abc_def0_u64;

    for len in 0..bytes.len() {
        for byte in &mut bytes {
            state = state.wrapping_mul(6364136223846793005).wrapping_add(1);
            *byte = (state >> 32) as u8;
        }
        let _ = decode_message_with_limits(
            &bytes[..len],
            GossipLimits {
                max_payload_bytes: 128,
                max_digests: 4,
                max_cells: 4,
            },
        );
    }
}

fn header() -> GossipHeader {
    GossipHeader {
        cluster_id_hash: 42,
        sender_node_id: NodeId { hi: 1, lo: 2 },
        sender_incarnation: 7,
        min_bucket: -5,
        max_bucket: 1000,
        flags: 2,
    }
}

fn message() -> GossipMessage {
    GossipMessage {
        header: header(),
        digests: vec![ShardDigest {
            shard_id: 3,
            active_cell_count: 1,
            max_sequence: 9,
            checksum: 11,
        }],
        cells: vec![cell(5, 1), cell(6, 2)],
        truncated: false,
    }
}

#[test]
fn what_was_encoded_is_decoded() {
    let sent = message();
    let mut buffer = Vec::new();
    assert!(!encode_message(&sent, &mut buffer, 512));
    assert_eq!(buffer.len(), HEADER_LEN + DIGEST_LEN + 2 * CELL_LEN);
    assert_eq!(decode_message(&buffer, 4, 4), Ok(message()));
}

#[test]
fn sealed_messages_need_the_key() {
    let mut buffer = Vec::new();
    let limits = GossipLimits::default();
    let key = HmacKey::new([7; 32]);
    assert!(!encode_authenticated_message(&message(), key, &mut buffer, limits));
    assert_eq!(decode_authenticated_message(&buffer, key, limits), Ok(message()));
    assert_eq!(
        decode_authenticated_message(&buffer, HmacKey::new([8; 32]), limits),
        Err(DecodeError::AuthenticationFailed)
    );
    assert_eq!(
        decode_authenticated_message(&buffer[..31], key, limits),
        Err(DecodeError::TooShort)
    );
}

/// A change of any one byte is found out, before anything is asked or handed
/// out, and so is another key.
#[test]
fn sealed_messages_reject_single_byte_mutations() {
    let key = HmacKey::new([9; 32]);
    let limits = GossipLimits::default();
    let mut frame = Vec::new();
    assert!(!encode_authenticated_message(&message(), key, &mut frame, limits));
    let refused = |bytes: &[u8], key: HmacKey| {
        let mut digests: Vec<ShardDigest> = Vec::new();
        let mut cells: Vec<CounterCell> = Vec::new();
        let visited = decode_authenticated_message_visit_checked(
            bytes,
            key,
            limits,
            |_| unreachable!("the header of a refused frame is not shown"),
            &mut digests,
            &mut cells,
        );
        assert_eq!(visited, Err(DecodeError::AuthenticationFailed));
        assert!(digests.is_empty() && cells.is_empty());
        assert_eq!(
            decode_authenticated_message(bytes, key, limits),
            Err(DecodeError::AuthenticationFailed)
        );
    };
    for at in 0..frame.len() {
        for mask in [0x01, 0x80, 0xA5] {
            let mut changed = frame.clone();
            changed[at] ^= mask;
            refused(&changed, key);
        }
    }
    refused(&frame, HmacKey::new([8; 32]));
}

#[test]
fn every_refusal_has_its_reason() {
    let mut buffer = Vec::new();
    encode_message(&message(), &mut buffer, 512);
    assert_eq!(decode_message(&buffer[..HEADER_LEN - 1], 4, 4), Err(DecodeError::TooShort));
    assert_eq!(decode_message(&buffer, 4, 1), Err(DecodeError::CapacityExceeded));
    let short = buffer.len() - 1;
    assert_eq!(decode_message(&buffer[..short], 4, 4), Err(DecodeError::Truncated));
    let mut other = buffer.clone();
    other[0] ^= 0xFF;
    assert_eq!(decode_message(&other, 4, 4), Err(DecodeError::BadMagic));
    let mut other = buffer.clone();
    other[4] ^= 0xFF;
    assert_eq!(decode_message(&other, 4, 4), Err(DecodeError::BadVersion));
    let texts = [
        DecodeError::TooShort.message(),
        DecodeError::BadMagic.message(),
        DecodeError::BadVersion.message(),
        DecodeError::Truncated.message(),
        DecodeError::CapacityExceeded.message(),
        DecodeError::PayloadTooLarge.message(),
        DecodeError::AuthenticationFailed.message(),
    ];
    for (i, text) in texts.iter().enumerate() {
        assert!(!text.is_empty());
        assert!(!texts[..i].contains(text));
    }
}

#[test]
fn an_unwanted_header_stops_the_visit() {
    let mut buffer = Vec::new();
    encode_message(&message(), &mut buffer, 512);
    let mut digests = Vec::new();
    let mut cells = Vec::new();
    let summary = decode_message_visit_checked(
        &buffer,
        GossipLimits::default(),
        |header: GossipHeader| header.cluster_id_hash == 43,
        &mut digests,
        &mut cells,
    )
    .expect("decode");
    assert_eq!(summary.cell_count, 2);
    assert!(digests.is_empty());
    assert!(cells.is_empty());
}

#[test]
fn metrics_count_bytes_and_truncations() {
    let mut metrics = GossipMetrics::default();
    metrics.record_send(10, true);
    metrics.record_send(5, false);
    metrics.record_recv(7);
    assert_eq!(metrics.send_bytes, 15);
    assert_eq!(metrics.truncated, 1);
    assert_eq!(metrics.recv_bytes, 7);
}
