use flow_reassembly::{
    flow_key_of, DecodedPacket, IpHeader, Pipeline, ShardConfig, ShardedTcpReassembler, TransportProtocol,
};

fn dummy_packet() -> DecodedPacket {
    DecodedPacket {
        ip_header: IpHeader {
            version: 4,
            ihl: 5,
            tos: 0,
            total_length: 40,
            identification: 1234,
            flags: 0,
            fragment_offset: 0,
            more_fragments: false,
            ttl: 64,
            protocol: 6,
            header_checksum: 0,
            source_ip: u32::from_be_bytes([192, 168, 1, 1]),
            dest_ip: u32::from_be_bytes([192, 168, 1, 2]),
        },
        protocol: TransportProtocol::TCP {
            seq: 1000,
            ack: 2000,
            flags: 0x18,
            window: 1024,
            src_port: 12345,
            dst_port: 80,
            payload: b"Hello".to_vec(),
        },
        timestamp: 0,
        payload: b"Hello".to_vec(),
    }
}

#[test]
fn test_shard_distribution() {
    let config = ShardConfig { shard_count: 4, ..Default::default() };
    let reassembler = ShardedTcpReassembler::new(config);
    let mut packet_counts = vec![0; 4];
    for i in 0..1000 {
        let stream_key = format!("test-stream-{}", i);
        let shard_idx = reassembler.get_smart_shard_index(&stream_key, &dummy_packet());
        packet_counts[shard_idx] += 1;
    }
    let avg = packet_counts.iter().sum::<usize>() / packet_counts.len();
    for count in packet_counts {
        assert!((count as i32 - avg as i32).abs() < 100);
    }
}

fn create_large_test_packet() -> DecodedPacket {
    let mut packet = dummy_packet();
    let data = vec![0; 1024];
    if let TransportProtocol::TCP { payload, .. } = &mut packet.protocol {
        *payload = data;
    }
    packet
}

#[test]
fn test_load_balancing() {
    let config = ShardConfig {
        shard_count: 4,
        rebalance_threshold: 10,
        stats_cleanup_interval: 1,
        timeout_secs: 1,
        ..Default::default()
    };
    let mut reassembler = ShardedTcpReassembler::new(config);
    for _ in 0..100 {
        let mut packet = create_large_test_packet();
        if let TransportProtocol::TCP { src_port, dst_port, .. } = &mut packet.protocol {
            *src_port = 12345;
            *dst_port = 54321;
        }
        let _ = reassembler.process_packet(&packet);
    }
    let stats = reassembler.get_shard_stats();
    let sum: usize = stats.iter().sum();
    assert!(sum > 0);
}

// S6: two flows, interleaved, each in its own stream.
#[test]
fn flows_stay_apart() {
    let mut r = ShardedTcpReassembler::new(ShardConfig { shard_count: 4, ..Default::default() });
    let mut f1 = dummy_packet();
    f1.ip_header.source_ip = 0x0a000001;
    f1.ip_header.dest_ip = 0x0a000002;
    f1.protocol = TransportProtocol::TCP { seq: 1000, ack: 0, flags: 0x18, window: 0, src_port: 1, dst_port: 1, payload: b"FlowOne".to_vec() };
    let mut f2 = dummy_packet();
    f2.ip_header.source_ip = 0x0a000003;
    f2.ip_header.dest_ip = 0x0a000004;
    f2.protocol = TransportProtocol::TCP { seq: 2000, ack: 0, flags: 0x18, window: 0, src_port: 2, dst_port: 2, payload: b"FlowTwo".to_vec() };
    assert_eq!(r.process_packet(&f1), Ok(Some(b"FlowOne".to_vec())));
    assert_eq!(r.process_packet(&f2), Ok(Some(b"FlowTwo".to_vec())));
    let k1 = flow_key_of(&f1).unwrap();
    let k2 = flow_key_of(&f2).unwrap();
    assert_eq!(r.get_reassembled_data(&k1), Some(b"FlowOne".to_vec()));
    assert_eq!(r.get_reassembled_data(&k2), Some(b"FlowTwo".to_vec()));
    let total: usize = r.get_shard_stats().iter().sum();
    assert_eq!(total, 2);
    assert!(r.get_health_status());
}

// P6: every packet of a flow goes to the same shard.
#[test]
fn shard_is_stable_per_flow() {
    let r = ShardedTcpReassembler::new(ShardConfig { shard_count: 8, ..Default::default() });
    let p = dummy_packet();
    let k = flow_key_of(&p).unwrap();
    let first = r.shard_for(&k);
    for _ in 0..10 {
        assert_eq!(r.shard_for(&k), first);
    }
    assert!(first < 8);
}

#[test]
fn udp_is_not_reassembled() {
    let mut r = ShardedTcpReassembler::new(ShardConfig { shard_count: 2, ..Default::default() });
    let mut p = dummy_packet();
    p.protocol = TransportProtocol::UDP { src_port: 53, dst_port: 53, payload: b"x".to_vec() };
    assert_eq!(r.process_packet(&p), Ok(None));
}

#[test]
fn cleanup_drops_idle_flows_in_every_shard() {
    let mut r = ShardedTcpReassembler::new(ShardConfig { shard_count: 3, timeout_secs: 30, ..Default::default() });
    let _ = r.process_packet(&dummy_packet());
    r.cleanup_all(30_000);
    assert_eq!(r.get_shard_stats().iter().sum::<usize>(), 1);
    r.cleanup_all(30_001);
    assert_eq!(r.get_shard_stats().iter().sum::<usize>(), 0);
}

#[test]
fn overloaded_shard_is_reported() {
    let mut r = ShardedTcpReassembler::new(ShardConfig { shard_count: 4, ..Default::default() });
    for port in 0..8u16 {
        let mut p = dummy_packet();
        if let TransportProtocol::TCP { src_port, .. } = &mut p.protocol {
            *src_port = port;
        }
        let _ = r.process_packet(&p);
    }
    let counts = r.get_shard_stats();
    let mean = counts.iter().sum::<usize>() / 4;
    let over = r.monitor_load_balance();
    for (j, c) in counts.iter().enumerate() {
        assert_eq!(over.contains(&j), *c > 2 * mean);
    }
}

// S1 through the whole path: one frame, decoded and delivered.
#[test]
fn frame_through_pipeline() {
    let mut pipeline = Pipeline::new(ShardConfig { shard_count: 2, ..Default::default() });
    let frame: Vec<u8> = vec![
        0, 0, 0, 0, 0, 1, 0, 0, 0, 0, 0, 2, 0x08, 0x00, 0x45, 0x00, 0x00, 0x2d, 0x00, 0x01, 0x00, 0x00, 0x40,
        0x06, 0x00, 0x00, 192, 168, 0, 1, 192, 168, 0, 2, 0x04, 0xd2, 0x00, 0x50, 0x00, 0x00, 0x00, 0x01, 0x00,
        0x00, 0x00, 0x00, 0x50, 0x18, 0x20, 0x00, 0x00, 0x00, 0x00, 0x00, b'H', b'e', b'l', b'l', b'o',
    ];
    assert_eq!(pipeline.process_frame(&frame, 1), Ok(Some(b"Hello".to_vec())));
    assert!(pipeline.process_frame(&[], 2).is_err());
}

// The textual key and the flow key route to the same shard.
#[test]
fn text_key_routes_like_flow_key() {
    let r = ShardedTcpReassembler::new(ShardConfig { shard_count: 7, ..Default::default() });
    let p = dummy_packet();
    let k = flow_key_of(&p).unwrap();
    let text = format!("{}:{}-{}:{}", k.src_ip, k.src_port, k.dst_ip, k.dst_port);
    assert_eq!(r.get_smart_shard_index(&text, &p), r.shard_for(&k));
}

#[test]
fn batch_and_all_stats() {
    let mut r = ShardedTcpReassembler::new(ShardConfig { shard_count: 3, ..Default::default() });
    let mut batch = Vec::new();
    for port in 0..5u16 {
        let mut p = dummy_packet();
        if let TransportProtocol::TCP { src_port, .. } = &mut p.protocol {
            *src_port = port;
        }
        batch.push(p);
    }
    let out = r.process_packets(batch).unwrap();
    assert_eq!(out.len(), 5);
    assert!(out.iter().all(|o| o.as_deref() == Some(&b"Hello"[..])));
    let all = r.get_all_stats();
    assert_eq!(all.len(), 5);
    assert!(all.iter().all(|(_, s)| s.byte_count == 5));
}

// A two-fragment TCP datagram through the whole path: the rebuilt payload
// is decoded again and its bytes delivered.
#[test]
fn fragmented_frame_through_pipeline() {
    let mut pipeline = Pipeline::new(ShardConfig { shard_count: 2, ..Default::default() });
    let tcp: Vec<u8> = vec![
        0x04, 0xd2, 0x00, 0x50, 0x00, 0x00, 0x00, 0x01, 0x00, 0x00, 0x00, 0x00, 0x50, 0x18, 0x20, 0x00, 0x00, 0x00,
        0x00, 0x00, b'H', b'i', b'!', b'!',
    ];
    let frame = |flags_off: [u8; 2], body: &[u8]| {
        let mut f = vec![0, 0, 0, 0, 0, 1, 0, 0, 0, 0, 0, 2, 0x08, 0x00];
        let total = (20 + body.len()) as u16;
        f.extend_from_slice(&[0x45, 0x00]);
        f.extend_from_slice(&total.to_be_bytes());
        f.extend_from_slice(&[0x00, 0x09, flags_off[0], flags_off[1], 0x40, 0x06, 0, 0, 10, 0, 0, 1, 10, 0, 0, 2]);
        f.extend_from_slice(body);
        f
    };
    let first = frame([0x20, 0x00], &tcp[..16]);
    let second = frame([0x00, 0x02], &tcp[16..]);
    assert_eq!(pipeline.process_frame(&first, 1), Ok(None));
    assert_eq!(pipeline.process_frame(&second, 2), Ok(Some(b"Hi!!".to_vec())));
}
