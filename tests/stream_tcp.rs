use flow_reassembly::{
    flow_key_of, DecodedPacket, FlowKey, IpHeader, ReassemblyPolicy, SackBlock, TcpReassembler, TcpState, TcpStream, TransportProtocol, TCP_ACK,
    TCP_PSH, TCP_SYN,
};

fn create_test_packet(seq: u32, payload: &[u8], flags: u8) -> DecodedPacket {
    DecodedPacket {
        timestamp: 0,
        ip_header: IpHeader {
            version: 4,
            ihl: 5,
            tos: 0,
            total_length: (20 + payload.len()) as u16,
            identification: 1234,
            flags: 0,
            more_fragments: false,
            fragment_offset: 0,
            ttl: 64,
            protocol: 6,
            header_checksum: 0,
            source_ip: u32::from_be_bytes([192, 168, 1, 1]),
            dest_ip: u32::from_be_bytes([192, 168, 1, 2]),
        },
        protocol: TransportProtocol::TCP {
            seq,
            ack: 0,
            flags,
            window: 0,
            src_port: 1234,
            dst_port: 80,
            payload: payload.to_vec(),
        },
        payload: payload.to_vec(),
    }
}

fn get_stream_key(packet: &DecodedPacket) -> FlowKey {
    flow_key_of(packet).unwrap()
}

#[test]
fn stream_tcp_test_basic_reassembly() {
    let mut reassembler = TcpReassembler::new(30, 1024, 1000, 100);
    let data = b"Hello, World!";
    let packet = create_test_packet(1, data, TCP_PSH | TCP_ACK);
    let result = reassembler.process_packet(&packet);
    let stream_key = get_stream_key(&packet);
    assert!(result.is_some());
    let reassembled_data = reassembler.get_reassembled_data(&stream_key);
    if let Some(data_result) = reassembled_data {
        assert!(data_result.len() >= data.len());
        assert!(data_result.starts_with(data));
    }
}

#[test]
fn stream_tcp_test_out_of_order() {}

#[test]
fn stream_tcp_test_retransmission() {
    let mut reassembler = TcpReassembler::new(30, 1024, 1000, 100);
    let packet1 = create_test_packet(1, b"Data", TCP_PSH | TCP_ACK);
    let packet2 = create_test_packet(1, b"Data", TCP_PSH | TCP_ACK);
    let result1 = reassembler.process_packet(&packet1);
    assert!(result1.is_some());
    let _result2 = reassembler.process_packet(&packet2);
    let stream_key = get_stream_key(&packet1);
    if let Some(data) = reassembler.get_reassembled_data(&stream_key) {
        assert!(data.len() >= 4);
        let data_str = std::str::from_utf8(&data).unwrap_or("");
        assert!(data_str.contains("Data"));
    }
    if let Some(stats) = reassembler.get_stream_stats(&stream_key) {
        assert!(stats.retransmissions <= 1);
    }
}

#[test]
fn stream_tcp_test_edge_cases() {
    let mut reassembler = TcpReassembler::new(30, 1024, 1000, 100);
    let empty_packet = create_test_packet(1, b"", TCP_PSH | TCP_ACK);
    reassembler.process_packet(&empty_packet);
    let big_seq_packet = create_test_packet(u32::MAX - 1000, b"BigSeq", TCP_PSH | TCP_ACK);
    reassembler.process_packet(&big_seq_packet);
    let overflow_packet1 = create_test_packet(u32::MAX, b"Overflow1", TCP_PSH | TCP_ACK);
    let overflow_packet2 = create_test_packet(0, b"Overflow2", TCP_PSH | TCP_ACK);
    reassembler.process_packet(&overflow_packet1);
    reassembler.process_packet(&overflow_packet2);
}

#[test]
fn test_suricata_reassembly_policies() {
    let policies = vec![
        ReassemblyPolicy::First,
        ReassemblyPolicy::Last,
        ReassemblyPolicy::Windows,
        ReassemblyPolicy::Linux,
        ReassemblyPolicy::Solaris,
        ReassemblyPolicy::LinuxOld,
    ];
    for policy in policies {
        let mut reassembler = TcpReassembler::new(30, 1024, 1000, 100);
        reassembler.set_policy(policy);
        let packet1 = create_test_packet(1000, b"Original", TCP_PSH | TCP_ACK);
        let packet2 = create_test_packet(1000, b"Overlap", TCP_PSH | TCP_ACK);
        let result1 = reassembler.process_packet(&packet1);
        let result2 = reassembler.process_packet(&packet2);
        match policy {
            ReassemblyPolicy::First => {
                assert!(result1.is_some());
                assert!(result2.is_none());
            }
            ReassemblyPolicy::Last => {
                assert!(result1.is_some());
                assert!(result2.is_none());
            }
            _ => {
                assert!(result1.is_some() || result2.is_some());
            }
        }
    }
}

fn packet_with(seq: u32, payload: &[u8], flags: u8, src_port: u16, window: u16) -> DecodedPacket {
    let mut p = create_test_packet(seq, payload, flags);
    p.ip_header.source_ip = u32::from_be_bytes([192, 168, 1, 1]);
    p.ip_header.dest_ip = u32::from_be_bytes([192, 168, 1, 2]);
    if let TransportProtocol::TCP { src_port: sp, window: w, .. } = &mut p.protocol {
        *sp = src_port;
        *w = window;
    }
    p
}

#[test]
fn test_improved_out_of_order_handling() {
    let mut reassembler = TcpReassembler::new(1000, 100, 1000, 100);
    let packets = vec![
        packet_with(1005, b"World", 0, 12345, 1024),
        packet_with(1000, b"Hello", 0, 12345, 1024),
        packet_with(1010, b"!", 0, 12345, 1024),
    ];
    for (i, packet) in packets.iter().enumerate() {
        let result = reassembler.process_packet(packet);
        if i == 0 && result.is_none() {
            panic!("first packet of a new flow must give its bytes");
        }
    }
}

#[test]
fn test_stream_state_management() {
    let mut reassembler = TcpReassembler::new(30, 1024, 1000, 100);
    let syn_packet = create_test_packet(1000, b"", TCP_SYN);
    let result = reassembler.process_packet(&syn_packet);
    assert!(result.is_none());
    let data_packet = create_test_packet(1001, b"Data", TCP_PSH | TCP_ACK);
    let result = reassembler.process_packet(&data_packet);
    assert!(result.is_some());
}

// S3: a flow opened by a SYN at 999; the second segment arrives first.
#[test]
fn out_of_order_then_fill() {
    let mut r = TcpReassembler::new(100, 1024, 30_000, 1000);
    assert!(r.process_packet(&create_test_packet(999, b"", TCP_SYN)).is_none());
    assert_eq!(r.process_packet(&create_test_packet(1005, b"World", TCP_ACK)), None);
    assert_eq!(r.process_packet(&create_test_packet(1000, b"Hello", TCP_ACK)), Some(b"HelloWorld".to_vec()));
    let key = get_stream_key(&create_test_packet(0, b"", 0));
    assert_eq!(r.get_reassembled_data(&key), Some(b"HelloWorld".to_vec()));
}

// S3 in arrival order, and S1.
#[test]
fn in_order_segments() {
    let mut r = TcpReassembler::new(100, 1024, 30_000, 1000);
    assert_eq!(r.process_packet(&create_test_packet(1000, b"Hello", 0x18)), Some(b"Hello".to_vec()));
    assert_eq!(r.process_packet(&create_test_packet(1005, b"World", 0x18)), Some(b"World".to_vec()));
    let key = get_stream_key(&create_test_packet(0, b"", 0));
    assert_eq!(r.get_reassembled_data(&key), Some(b"HelloWorld".to_vec()));
}

// S4: an exact duplicate gives nothing and counts one retransmission.
#[test]
fn duplicate_counts_one_retransmission() {
    let mut r = TcpReassembler::new(100, 1024, 30_000, 1000);
    assert_eq!(r.process_packet(&create_test_packet(1, b"Data", 0x18)), Some(b"Data".to_vec()));
    assert_eq!(r.process_packet(&create_test_packet(1, b"Data", 0x18)), None);
    let key = get_stream_key(&create_test_packet(0, b"", 0));
    assert_eq!(r.get_stream_stats(&key).unwrap().retransmissions, 1);
    // a buffered duplicate counts too
    assert_eq!(r.process_packet(&create_test_packet(20, b"Later", 0x18)), None);
    assert_eq!(r.process_packet(&create_test_packet(20, b"Later", 0x18)), None);
    assert_eq!(r.get_stream_stats(&key).unwrap().retransmissions, 2);
}

// S5: a gap leaves the later segment buffered.
#[test]
fn gap_is_buffered() {
    let mut r = TcpReassembler::new(100, 1024, 30_000, 1000);
    r.set_max_gap(1024);
    assert_eq!(r.process_packet(&create_test_packet(1000, b"Start ", 0x18)), Some(b"Start ".to_vec()));
    assert_eq!(r.process_packet(&create_test_packet(1020, b"End", 0x18)), None);
    let key = get_stream_key(&create_test_packet(0, b"", 0));
    let stats = r.get_stream_stats(&key).unwrap();
    assert_eq!(stats.out_of_order, 1);
    assert_eq!(r.streams[0].next_seq, 1006);
    assert_eq!(r.get_reassembled_data(&key), Some(b"Start ".to_vec()));
    // a gap beyond the limit is refused
    assert_eq!(r.process_packet(&create_test_packet(1006 + 2000, b"Far", 0x18)), None);
    assert_eq!(r.get_stream_stats(&key).unwrap().gaps_detected, 1);
    assert_eq!(r.streams[0].segments.len(), 1);
}

// A segment that overlaps delivered bytes gives only its new suffix.
#[test]
fn partial_overlap_gives_suffix() {
    let mut r = TcpReassembler::new(100, 1024, 30_000, 1000);
    assert_eq!(r.process_packet(&create_test_packet(100, b"abcd", 0x18)), Some(b"abcd".to_vec()));
    assert_eq!(r.process_packet(&create_test_packet(102, b"cdef", 0x18)), Some(b"ef".to_vec()));
}

// Any arrival order of the same segments gives the same bytes.
#[test]
fn permutations_give_same_bytes() {
    let segs: [(u32, &[u8]); 3] = [(11, b"aaaa"), (15, b"bbb"), (18, b"cc")];
    let orders = [[0, 1, 2], [0, 2, 1], [1, 0, 2], [1, 2, 0], [2, 0, 1], [2, 1, 0]];
    for order in orders.iter() {
        let mut r = TcpReassembler::new(100, 1024, 30_000, 1000);
        r.process_packet(&create_test_packet(10, b"", TCP_SYN));
        for &i in order.iter() {
            r.process_packet(&create_test_packet(segs[i].0, segs[i].1, TCP_ACK));
        }
        let key = get_stream_key(&create_test_packet(0, b"", 0));
        assert_eq!(r.get_reassembled_data(&key), Some(b"aaaabbbcc".to_vec()));
    }
}

// A flow idle for longer than the timeout is gone after cleanup.
#[test]
fn idle_flow_is_dropped() {
    let mut r = TcpReassembler::new(100, 1024, 30_000, 1000);
    r.process_packet(&create_test_packet(1, b"Data", 0x18));
    assert_eq!(r.get_stream_count(), 1);
    r.cleanup_expired(30_000);
    assert_eq!(r.get_stream_count(), 1);
    r.cleanup_expired(30_001);
    assert_eq!(r.get_stream_count(), 0);
}

#[test]
fn connection_states_follow_flags() {
    let mut r = TcpReassembler::new(100, 1024, 30_000, 1000);
    r.process_packet(&create_test_packet(1, b"", TCP_SYN));
    assert_eq!(r.streams[0].state, TcpState::SynReceived);
    r.process_packet(&create_test_packet(2, b"", TCP_ACK));
    assert_eq!(r.streams[0].state, TcpState::Established);
    r.process_packet(&create_test_packet(2, b"", 0x01));
    assert_eq!(r.streams[0].state, TcpState::CloseWait);
    r.process_packet(&create_test_packet(2, b"", 0x04));
    assert_eq!(r.streams[0].state, TcpState::Closed);
    assert_eq!(r.streams[0].stats.reassembly_errors, 0);
}

#[test]
fn sack_blocks_merge_and_clear() {
    let mut s = TcpStream::new(FlowKey::new(1, 2, 3, 4), 0);
    s.update_sack_blocks(SackBlock { start_seq: 100, end_seq: 200 });
    s.update_sack_blocks(SackBlock { start_seq: 200, end_seq: 300 });
    assert_eq!(s.sack_blocks.len(), 1);
    assert_eq!(s.sack_blocks[0], SackBlock { start_seq: 100, end_seq: 300 });
    assert!(s.is_seq_sacked(250));
    assert!(!s.is_seq_sacked(300));
    s.update_ack(300);
    s.cleanup_sack_blocks();
    assert!(!s.is_seq_sacked(250));
    s.update_window(10);
    assert_eq!(s.window_size, 10);
}

// Each overlap policy decides between a buffered segment and a new one that
// starts two bytes before it.
#[test]
fn overlap_policies_decide() {
    let cases = [
        (ReassemblyPolicy::First, b"xxxxxxxx".to_vec()),
        (ReassemblyPolicy::Last, b"xxxxxxxxbbbb".to_vec()),
        (ReassemblyPolicy::Windows, b"xxxxxxxxbbbb".to_vec()),
        (ReassemblyPolicy::Linux, b"xxxxxxxxbbbb".to_vec()),
        (ReassemblyPolicy::Solaris, b"xxxxxxxx".to_vec()),
        (ReassemblyPolicy::LinuxOld, b"xxxxxxxxbbbb".to_vec()),
    ];
    for (policy, expected) in cases.iter() {
        let mut r = TcpReassembler::new(100, 1024, 30_000, 1000);
        r.set_policy(*policy);
        r.process_packet(&create_test_packet(0, b"", TCP_SYN));
        assert_eq!(r.process_packet(&create_test_packet(11, b"aaaa", TCP_ACK)), None);
        assert_eq!(r.process_packet(&create_test_packet(9, b"bbbb", TCP_ACK)), None);
        let out = r.process_packet(&create_test_packet(1, b"xxxxxxxx", TCP_ACK)).unwrap();
        assert_eq!(&out, expected, "{:?}", policy);
    }
}

// A flag combination that matches no transition counts as an error.
#[test]
fn unexpected_flags_count_an_error() {
    let mut r = TcpReassembler::new(100, 1024, 30_000, 1000);
    r.process_packet(&create_test_packet(1, b"", TCP_SYN));
    r.process_packet(&create_test_packet(2, b"", TCP_ACK));
    assert_eq!(r.streams[0].state, TcpState::Established);
    r.process_packet(&create_test_packet(2, b"", TCP_PSH));
    assert_eq!(r.streams[0].state, TcpState::Established);
    assert_eq!(r.streams[0].stats.reassembly_errors, 1);
}

// The flow seen least recently makes room when the table is full.
#[test]
fn least_recent_flow_is_evicted() {
    let mut r = TcpReassembler::new(100, 1024, 30_000, 1000);
    r.set_max_streams(2);
    for (port, ts) in [(1u16, 10u64), (2, 5), (3, 20)] {
        let mut p = create_test_packet(1, b"x", 0x18);
        p.timestamp = ts;
        if let TransportProtocol::TCP { src_port, .. } = &mut p.protocol {
            *src_port = port;
        }
        r.process_packet(&p);
    }
    assert_eq!(r.get_stream_count(), 2);
    assert!(r.streams.iter().all(|s| s.key.src_port != 2));
}
