use stegshare::transport::{make_data_packet, parse_ack, split_message, ChunkSender, Datagram,
    Reassembly, RecvAction};

fn ack_bytes(id: u32) -> Vec<u8> {
    id.to_be_bytes().to_vec()
}

#[test]
fn split_small_message_is_one_chunk() {
    let msg = vec![1u8, 2, 3, 4, 5];
    let chunks = split_message(&msg);
    assert_eq!(chunks.len(), 1);
    assert_eq!(chunks[0], msg);
}

#[test]
fn split_large_message_has_remainder_chunk() {
    let msg: Vec<u8> = (0..2500u32).map(|i| (i % 251) as u8).collect();
    let chunks = split_message(&msg);
    assert_eq!(chunks.len(), 3);
    assert_eq!(chunks[0].len(), 1020);
    assert_eq!(chunks[1].len(), 1020);
    assert_eq!(chunks[2].len(), 460);
    let mut joined = Vec::new();
    for c in &chunks {
        joined.extend_from_slice(c);
    }
    assert_eq!(joined, msg);
}

#[test]
fn split_empty_message_has_no_chunks() {
    let msg: Vec<u8> = Vec::new();
    assert_eq!(split_message(&msg).len(), 0);
}

#[test]
fn data_packet_has_big_endian_header() {
    let p = make_data_packet(0x01020304, &[9, 8, 7]);
    assert_eq!(p, vec![1u8, 2, 3, 4, 9, 8, 7]);
}

#[test]
fn parse_ack_reads_only_four_byte_datagrams() {
    assert_eq!(parse_ack(&[0, 0, 0, 5]), Some(5));
    assert_eq!(parse_ack(&[0, 0, 5]), None);
    assert_eq!(parse_ack(&[0, 0, 0, 0, 5]), None);
    assert_eq!(parse_ack(&[]), None);
}

/// Sending then receiving yields exactly the message, even when a chunk is
/// duplicated on the wire and the acknowledgements for the duplicate repeat.
#[test]
fn send_then_receive_round_trip_with_duplicates() {
    let msg: Vec<u8> = (0..5000u32).map(|i| (i % 241) as u8).collect();
    let mut sender = ChunkSender::new(&msg);
    let mut receiver = Reassembly::new();
    let mut acked_twice = false;
    while !sender.done() {
        let packet = sender.current_packet().expect("a chunk is pending");
        // The wire duplicates the second chunk once.
        let copies = if !acked_twice && packet[3] == 1 {
            acked_twice = true;
            2
        } else {
            1
        };
        let mut last_ack: Option<u32> = None;
        for _ in 0..copies {
            match receiver.on_datagram(&packet) {
                RecvAction::Ack(id) => last_ack = Some(id),
                _ => panic!("a data packet is acknowledged"),
            }
        }
        let advanced = sender.on_ack_datagram(&ack_bytes(last_ack.unwrap()));
        assert!(advanced);
    }
    match receiver.on_datagram(&[]) {
        RecvAction::Finish => {},
        _ => panic!("the empty datagram finishes the message"),
    }
    assert_eq!(receiver.message(), Some(msg));
}

#[test]
fn receiver_reorders_chunks_by_id() {
    let msg: Vec<u8> = (0..2040u32).map(|i| (i % 17) as u8).collect();
    let chunks = split_message(&msg);
    assert_eq!(chunks.len(), 2);
    let p0 = make_data_packet(0, &chunks[0]);
    let p1 = make_data_packet(1, &chunks[1]);
    let mut receiver = Reassembly::new();
    receiver.on_datagram(&p1);
    receiver.on_datagram(&p0);
    assert_eq!(receiver.message(), Some(msg));
}

#[test]
fn receiver_reports_missing_chunk() {
    let mut receiver = Reassembly::new();
    let p1 = make_data_packet(1, &[5, 6]);
    receiver.on_datagram(&p1);
    assert!(receiver.message().is_none());
}

#[test]
fn malformed_datagrams_are_dropped_silently() {
    let mut receiver = Reassembly::new();
    let p0 = make_data_packet(0, &[1]);
    receiver.on_datagram(&p0);
    match receiver.on_datagram(&[42, 42]) {
        RecvAction::Drop => {},
        _ => panic!("short datagrams are dropped"),
    }
    assert_eq!(receiver.message(), Some(vec![1u8]));
}

#[test]
fn duplicate_chunk_does_not_alter_reassembly() {
    let p0 = make_data_packet(0, &[1, 2]);
    let p1 = make_data_packet(1, &[3]);
    let mut once = Reassembly::new();
    once.on_datagram(&p0);
    once.on_datagram(&p1);
    let mut twice = Reassembly::new();
    twice.on_datagram(&p0);
    twice.on_datagram(&p1);
    twice.on_datagram(&p1);
    assert_eq!(once.message(), Some(vec![1u8, 2, 3]));
    assert_eq!(twice.message(), Some(vec![1u8, 2, 3]));
}

#[test]
fn sender_ignores_wrong_and_short_acks() {
    let msg = vec![7u8; 10];
    let mut sender = ChunkSender::new(&msg);
    assert!(!sender.done());
    assert!(!sender.on_ack_datagram(&ack_bytes(3)));
    assert!(!sender.on_ack_datagram(&[0u8, 0]));
    assert!(sender.on_ack_datagram(&ack_bytes(0)));
    assert!(sender.done());
    assert!(sender.current_packet().is_none());
}

#[test]
fn datagram_parsing_classifies_by_length() {
    match stegshare::transport::parse_datagram(&[]) {
        Datagram::Eom => {},
        _ => panic!("empty datagram is the end of message"),
    }
    match stegshare::transport::parse_datagram(&[1, 2]) {
        Datagram::Malformed => {},
        _ => panic!("short datagram is malformed"),
    }
    match stegshare::transport::parse_datagram(&[0, 0, 0, 2, 9]) {
        Datagram::Data { chunk_id, payload } => {
            assert_eq!(chunk_id, 2);
            assert_eq!(payload, vec![9u8]);
        },
        _ => panic!("long datagram is data"),
    }
}
