use bubu2bubu::net::peer::{split_packet, Assembly, PacketAssembler, PeerEvent, MAX_NOISE_PAYLOAD};
use bubu2bubu::net::protocol::{be_to_u32, frame_header, frame_length, u32_to_be, MAX_FRAME_LEN};

#[test]
fn frame_header_is_big_endian_length() {
    assert_eq!(frame_header(0), [0, 0, 0, 0]);
    assert_eq!(frame_header(258), [0, 0, 1, 2]);
    assert_eq!(frame_header(0x1_0000_0001), [0, 0, 0, 1]);
}

#[test]
fn frame_length_reads_back_and_limits() {
    assert_eq!(frame_length(frame_header(1234)).unwrap(), 1234);
    assert_eq!(frame_length(frame_header(MAX_FRAME_LEN)).unwrap(), MAX_FRAME_LEN);
    assert_eq!(frame_length(frame_header(MAX_FRAME_LEN + 1)).unwrap_err(), "frame too large");
}

#[test]
fn be_conversions() {
    assert_eq!(u32_to_be(0x0102_0304), [1, 2, 3, 4]);
    assert_eq!(be_to_u32(&[1, 2, 3, 4, 5]), 0x0102_0304);
}

#[test]
fn split_packet_chunks_and_counts() {
    let packed: Vec<u8> = (0..(2 * MAX_NOISE_PAYLOAD + 5)).map(|i| (i % 251) as u8).collect();
    let (header, chunks) = split_packet(&packed);
    assert_eq!(header, [0, 0, 0, 3]);
    assert_eq!(chunks.len(), 3);
    assert_eq!(chunks[0].len(), MAX_NOISE_PAYLOAD);
    assert_eq!(chunks[2].len(), 5);
    assert_eq!(chunks.concat(), packed);
    let (h0, c0) = split_packet(&[]);
    assert_eq!(h0, [0, 0, 0, 0]);
    assert!(c0.is_empty());
}

#[test]
fn assembler_rebuilds_a_split_packet() {
    let packed: Vec<u8> = (0..(MAX_NOISE_PAYLOAD + 10)).map(|i| (i % 7) as u8).collect();
    let (header, chunks) = split_packet(&packed);
    let mut a = PacketAssembler::new();
    assert!(matches!(a.on_header(Ok(header.to_vec())), Assembly::Pending));
    assert!(matches!(a.on_chunk(Ok(chunks[0].clone())), Assembly::Pending));
    match a.on_chunk(Ok(chunks[1].clone())) {
        Assembly::Complete(p) => assert_eq!(p, packed),
        _ => panic!("packet not complete"),
    }
}

#[test]
fn assembler_handles_empty_and_bad_headers() {
    let mut a = PacketAssembler::new();
    match a.on_header(Ok(vec![0, 0, 0, 0])) {
        Assembly::Complete(p) => assert!(p.is_empty()),
        _ => panic!("empty packet not complete"),
    }
    match a.on_header(Ok(vec![0, 1])) {
        Assembly::Failed(e) => assert_eq!(e, "bad header"),
        _ => panic!("short header accepted"),
    }
    match a.on_header(Err("boom".to_string())) {
        Assembly::Failed(e) => assert_eq!(e, "noise header: boom"),
        _ => panic!("failed header accepted"),
    }
}

#[test]
fn assembler_reports_a_failed_chunk() {
    let mut a = PacketAssembler::new();
    assert!(matches!(a.on_header(Ok(vec![0, 0, 0, 2])), Assembly::Pending));
    match a.on_chunk(Err("bad tag".to_string())) {
        Assembly::Failed(e) => assert_eq!(e, "noise chunk: bad tag"),
        _ => panic!("failed chunk accepted"),
    }
}

#[test]
fn peer_events_exist() {
    let events = [PeerEvent::Connected, PeerEvent::Message(vec![1]), PeerEvent::Disconnected];
    assert!(matches!(events[1], PeerEvent::Message(ref m) if m == &vec![1]));
}

#[test]
fn assembler_hands_on_packets_in_sending_order() {
    let packets: Vec<Vec<u8>> = vec![
        (0..(MAX_NOISE_PAYLOAD + 3)).map(|i| (i % 13) as u8).collect(),
        Vec::new(),
        vec![9, 8, 7],
    ];
    let mut a = PacketAssembler::new();
    let mut out: Vec<Vec<u8>> = Vec::new();
    for p in &packets {
        let (header, chunks) = split_packet(p);
        if let Assembly::Complete(done) = a.on_header(Ok(header.to_vec())) {
            out.push(done);
        }
        for c in chunks {
            if let Assembly::Complete(done) = a.on_chunk(Ok(c)) {
                out.push(done);
            }
        }
    }
    assert_eq!(out, packets);
}
