use flow_reassembly::{flow_key_of, DecodedPacket, FlowKey, IpHeader, TcpReassembler, TransportProtocol};

fn create_test_packet(seq: u32, payload: &[u8], flags: u8) -> DecodedPacket {
    DecodedPacket {
        timestamp: 0,
        ip_header: IpHeader {
            version: 4,
            ihl: 5,
            tos: 0,
            total_length: (20 + payload.len()) as u16,
            identification: 1234,
            flags: 0,
            more_fragments: false,
            fragment_offset: 0,
            ttl: 64,
            protocol: 6,
            header_checksum: 0,
            source_ip: u32::from_be_bytes([192, 168, 1, 1]),
            dest_ip: u32::from_be_bytes([192, 168, 1, 2]),
        },
        protocol: TransportProtocol::TCP { seq, ack: 0, flags, window: 0, src_port: 1234, dst_port: 80, payload: payload.to_vec() },
        payload: payload.to_vec(),
    }
}

fn get_stream_key(packet: &DecodedPacket) -> FlowKey {
    flow_key_of(packet).unwrap()
}

#[test]
fn integration_test_test_basic_reassembly() {
    let mut reassembler = TcpReassembler::new(30, 1024, 1000, 100);
    let data = b"Hello, World!";
    let packet = create_test_packet(1, data, 0x18);
    let _result = reassembler.process_packet(&packet);
    let stream_key = get_stream_key(&packet);
    let reassembled_data = reassembler.get_reassembled_data(&stream_key);
    assert!(reassembled_data.is_some());
    let data_result = reassembled_data.unwrap();
    assert!(data_result.len() >= data.len());
    assert!(data_result.starts_with(data));
}

#[test]
fn test_different_seq_numbers() {
    let test_sequences = [1, 1000, 2000, 3000, u32::MAX / 2, u32::MAX - 100];
    for &seq in &test_sequences {
        let mut reassembler = TcpReassembler::new(30, 1024, 1000, 100);
        let data = format!("Test data with seq {}", seq);
        let packet = create_test_packet(seq, data.as_bytes(), 0x18);
        let result = reassembler.process_packet(&packet);
        assert!(result.is_some(), "seq {}", seq);
        assert_eq!(result.unwrap(), data.as_bytes());
        let stream_key = get_stream_key(&packet);
        let reassembled_data = reassembler.get_reassembled_data(&stream_key);
        assert!(reassembled_data.is_some());
        assert!(reassembled_data.unwrap().len() >= data.len());
    }
}

#[test]
fn integration_test_test_out_of_order() {
    let mut reassembler = TcpReassembler::new(10, 1024, 1000, 100);
    let packet1 = create_test_packet(1000, b"Hello", 0x18);
    let packet2 = create_test_packet(1005, b"World", 0x18);
    {
        let mut reassembler = TcpReassembler::new(10, 1024, 1000, 100);
        let _result1 = reassembler.process_packet(&packet1);
        let _result2 = reassembler.process_packet(&packet2);
        let stream_key = get_stream_key(&packet1);
        let reassembled_data = reassembler.get_reassembled_data(&stream_key);
        assert!(reassembled_data.is_some());
        let data = reassembled_data.unwrap();
        assert!(data.len() >= 5);
        let data_str = std::str::from_utf8(&data).unwrap_or("");
        assert!(data_str.contains("Hello") || data_str.contains("World"));
    }
    let _result1 = reassembler.process_packet(&packet2);
    let _result2 = reassembler.process_packet(&packet1);
    let stream_key = get_stream_key(&packet1);
    let reassembled_data = reassembler.get_reassembled_data(&stream_key);
    assert!(reassembled_data.is_some());
    let data = reassembled_data.unwrap();
    assert!(data.len() >= 5);
    let data_str = std::str::from_utf8(&data).unwrap_or("");
    assert!(data_str.contains("Hello") || data_str.contains("World"));
}

#[test]
fn integration_test_test_retransmission() {
    let mut reassembler = TcpReassembler::new(30, 1024, 1000, 100);
    let packet1 = create_test_packet(1, b"Data", 0x18);
    let packet2 = create_test_packet(1, b"Data", 0x18);
    let _result1 = reassembler.process_packet(&packet1);
    let _result2 = reassembler.process_packet(&packet2);
    let stream_key = get_stream_key(&packet1);
    let reassembled_data = reassembler.get_reassembled_data(&stream_key);
    assert!(reassembled_data.is_some());
    let data = reassembled_data.unwrap();
    assert!(data.len() >= 4);
    let data_str = std::str::from_utf8(&data).unwrap_or("");
    assert!(data_str.contains("Data"));
    if let Some(stats) = reassembler.get_stream_stats(&stream_key) {
        assert!(stats.retransmissions <= 1);
    }
}

#[test]
fn integration_test_test_edge_cases() {
    let mut reassembler = TcpReassembler::new(30, 1024, 1000, 100);
    let empty_packet = create_test_packet(1, b"", 0x18);
    reassembler.process_packet(&empty_packet);
    let big_seq_packet = create_test_packet(u32::MAX - 1000, b"BigSeq", 0x18);
    reassembler.process_packet(&big_seq_packet);
    let overflow_packet1 = create_test_packet(u32::MAX, b"Overflow1", 0x18);
    let overflow_packet2 = create_test_packet(0, b"Overflow2", 0x18);
    reassembler.process_packet(&overflow_packet1);
    reassembler.process_packet(&overflow_packet2);
}
