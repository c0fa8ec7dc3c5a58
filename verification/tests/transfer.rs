use common_lib::transfer::{
    acknowledged_sequence, chunk_packets, decode_header, encode_header, encode_id, end_packet,
    id_from_datagram, make_packet, Receiver, Sender, SenderAction, SenderEvent, CHUNK_SIZE,
    END_OF_TRANSMISSION, HEADER_SIZE, NAME_SEQUENCE, serves_request,
};

#[test]
fn header_is_big_endian() {
    assert_eq!(encode_header(0x0102030405060708), vec![1, 2, 3, 4, 5, 6, 7, 8]);
    assert_eq!(encode_header(1), 1usize.to_be_bytes().to_vec());
    assert_eq!(decode_header(&[0, 0, 0, 0, 0, 0, 1, 0, 99]), 256);
}

#[test]
fn header_roundtrip() {
    for n in [0u64, 1, 255, 65008, u64::MAX - 1, u64::MAX] {
        assert_eq!(decode_header(&encode_header(n)), n);
    }
}

#[test]
fn packet_is_header_then_payload() {
    let p = make_packet(3, &[9, 8, 7]);
    assert_eq!(p, vec![0, 0, 0, 0, 0, 0, 0, 3, 9, 8, 7]);
    assert_eq!(end_packet(), vec![255; 8]);
}

#[test]
fn chunking_cuts_at_chunk_size() {
    let data: Vec<u8> = (0..(2 * CHUNK_SIZE + 5)).map(|i| (i % 251) as u8).collect();
    let packets = chunk_packets(&data);
    assert_eq!(packets.len(), 3);
    assert_eq!(packets[0].len(), HEADER_SIZE + CHUNK_SIZE);
    assert_eq!(packets[2].len(), HEADER_SIZE + 5);
    assert_eq!(decode_header(&packets[2]), 2);
    assert_eq!(&packets[1][HEADER_SIZE..], &data[CHUNK_SIZE..2 * CHUNK_SIZE]);
    assert!(chunk_packets(&[]).is_empty());
    assert_eq!(chunk_packets(&vec![1u8; CHUNK_SIZE]).len(), 1);
}

#[test]
fn acknowledgement_reads_like_a_fresh_buffer() {
    assert_eq!(acknowledged_sequence(&encode_header(42)), 42);
    assert_eq!(acknowledged_sequence(&[0, 0, 0, 0, 0, 0, 0, 5, 1, 1]), 5);
    assert_eq!(acknowledged_sequence(&[1]), 1u64 << 56);
    assert_eq!(acknowledged_sequence(&[]), 0);
}

#[test]
fn file_comes_through_reordered_and_repeated() {
    let data: Vec<u8> = (0..(3 * CHUNK_SIZE + 17)).map(|i| (i * 7 % 256) as u8).collect();
    let packets = chunk_packets(&data);
    let mut rx = Receiver::new(false);
    for &i in &[2usize, 0, 3, 0, 1, 2] {
        let seq = rx.read_sequence(&packets[i]);
        assert_eq!(seq, i as u64);
        rx.accept(seq, &packets[i]);
    }
    assert!(!rx.is_finished());
    let end = end_packet();
    let seq = rx.read_sequence(&end);
    assert_eq!(seq, END_OF_TRANSMISSION);
    rx.accept(seq, &end);
    assert!(rx.is_finished());
    assert_eq!(rx.into_file(), data);
}

#[test]
fn missing_chunk_leaves_a_gap() {
    let mut rx = Receiver::new(false);
    for (seq, payload) in [(0u64, vec![1u8, 2]), (2u64, vec![5u8])] {
        let p = make_packet(seq, &payload);
        let s = rx.read_sequence(&p);
        rx.accept(s, &p);
    }
    // two chunks held, so chunks 0 and 1 are put together; 1 is missing
    assert_eq!(rx.into_file(), vec![1, 2]);
}

#[test]
fn short_datagram_reuses_earlier_header_bytes() {
    let mut rx = Receiver::new(false);
    let p = make_packet(0x0102, &[7]);
    rx.read_sequence(&p);
    let seq = rx.read_sequence(&[0, 0, 0, 0, 0]);
    assert_eq!(seq, 0x0102);
}

#[test]
fn name_datagram_gives_the_name_once() {
    let mut rx = Receiver::new(true);
    let name = make_packet(NAME_SEQUENCE, b"image1.png");
    let s = rx.read_sequence(&name);
    rx.accept(s, &name);
    assert_eq!(rx.image_name(), b"image1.png".to_vec());
    let data = make_packet(0, &[1, 2, 3]);
    let s = rx.read_sequence(&data);
    rx.accept(s, &data);
    // the name datagram again is taken as a chunk
    let s = rx.read_sequence(&name);
    rx.accept(s, &name);
    assert_eq!(rx.image_name(), b"image1.png".to_vec());
    assert_eq!(rx.into_file(), vec![1, 2, 3]);
}

#[test]
fn receiver_without_name_stores_name_numbered_datagram() {
    let mut rx = Receiver::new(false);
    let name = make_packet(NAME_SEQUENCE, b"x");
    let s = rx.read_sequence(&name);
    rx.accept(s, &name);
    assert!(rx.image_name().is_empty());
}

#[test]
fn sender_waits_for_each_acknowledgement() {
    let (mut tx, first) = Sender::new(2);
    assert!(first == SenderAction::SendChunk(0));
    assert!(tx.on_event(SenderEvent::TimedOut) == SenderAction::SendChunk(0));
    assert!(tx.on_event(SenderEvent::Acknowledged(1)) == SenderAction::SendChunk(0));
    assert!(tx.on_event(SenderEvent::Acknowledged(0)) == SenderAction::SendChunk(1));
    assert!(tx.on_event(SenderEvent::Acknowledged(0)) == SenderAction::SendChunk(1));
    assert!(tx.on_event(SenderEvent::Acknowledged(1)) == SenderAction::SendEnd);
}

#[test]
fn sender_of_empty_file_sends_end_at_once() {
    let (_, first) = Sender::new(0);
    assert!(first == SenderAction::SendEnd);
}

#[test]
fn server_id_roundtrip() {
    assert_eq!(encode_id(55), 55i32.to_be_bytes().to_vec());
    assert_eq!(id_from_datagram(&encode_id(-3)), -3);
    assert_eq!(id_from_datagram(&[0, 0, 1]), 256);
    assert_eq!(id_from_datagram(&[0, 0, 0, 2, 9]), 2);
}

#[test]
fn server_serves_requests_only_with_the_token() {
    assert!(serves_request("Request", true));
    assert!(!serves_request("Request", false));
    assert!(!serves_request("request", true));
    assert!(!serves_request("Who online", true));
}

#[test]
fn exchange_literals() {
    assert!(common_lib::transfer::is_ack("ACK"));
    assert!(!common_lib::transfer::is_ack("ACK "));
    assert!(common_lib::transfer::is_view_all("view all"));
    assert!(!common_lib::transfer::is_view_all("view"));
}
