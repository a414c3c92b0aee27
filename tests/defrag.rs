use flow_reassembly::{
    DecodedPacket, FragmentPolicy, IpDefragmenter, IpHeader, PacketError, ReassembleError, TransportProtocol,
};

fn create_test_packet(offset: u16, more_fragments: bool, data: &[u8]) -> DecodedPacket {
    DecodedPacket {
        ip_header: IpHeader {
            version: 4,
            ihl: 5,
            tos: 0,
            total_length: (20 + data.len()) as u16,
            identification: 12345,
            flags: if more_fragments { 1 } else { 0 },
            fragment_offset: offset,
            more_fragments,
            ttl: 64,
            protocol: 6,
            header_checksum: 0,
            source_ip: 0x0a0a0a0a,
            dest_ip: 0x0b0b0b0b,
        },
        protocol: TransportProtocol::TCP {
            seq: 0,
            ack: 0,
            flags: 0,
            window: 1024,
            src_port: 1234,
            dst_port: 5678,
            payload: data.to_vec(),
        },
        timestamp: 0,
        payload: data.to_vec(),
    }
}

fn tcp_payload(p: &DecodedPacket) -> Vec<u8> {
    match &p.protocol {
        TransportProtocol::TCP { payload, .. } => payload.clone(),
        _ => panic!("Expected TCP protocol in reassembled packet"),
    }
}

#[test]
fn test_simple_fragments() {
    let mut defrag = IpDefragmenter::new();
    let frag1 = create_test_packet(0, true, b"abcdefgh");
    let frag2 = create_test_packet(1, false, b"ijkl");
    let result1 = defrag.process_packet(&frag1).unwrap();
    assert!(result1.is_none());
    let result2 = defrag.process_packet(&frag2).unwrap();
    assert!(result2.is_some());
    if let Some(reassembled) = result2 {
        assert_eq!(&tcp_payload(&reassembled)[..], b"abcdefghijkl");
    } else {
        panic!("Failed to reassemble fragments");
    }
}

#[test]
fn defrag_test_fragmented_packet() {
    let mut defragmenter = IpDefragmenter::new();
    let frag1 = create_test_packet(0, true, b"First123");
    let result1 = defragmenter.process_packet(&frag1).unwrap();
    assert!(result1.is_none());
    let frag2 = create_test_packet(1, false, b"ABCD");
    let result2 = defragmenter.process_packet(&frag2).unwrap();
    assert!(result2.is_some());
    if let Some(reassembled) = result2 {
        assert_eq!(&tcp_payload(&reassembled)[..], b"First123ABCD");
        let stats = defragmenter.get_stats();
        assert_eq!(stats.total_fragments, 2);
        assert_eq!(stats.current_groups, 0);
        assert_eq!(stats.reassembled_packets, 1);
    }
}

// The first two packets are no fragments (offset 0, MF clear): they pass
// through whole, whatever their size or protocol.
#[test]
fn test_invalid_fragments() {
    let mut defrag = IpDefragmenter::new();
    let large_data = vec![0u8; 65535 + 1];
    let invalid_frag = create_test_packet(0, false, &large_data);
    let result = defrag.process_packet(&invalid_frag);
    assert!(result.is_ok() && result.unwrap().is_some());
    let mut invalid_proto_frag = create_test_packet(0, false, b"test");
    invalid_proto_frag.ip_header.protocol = 1;
    let result = defrag.process_packet(&invalid_proto_frag);
    assert!(result.is_ok() && result.unwrap().is_some());
    let unaligned_frag = create_test_packet(3, false, b"test");
    let result = defrag.process_packet(&unaligned_frag);
    assert!(result.is_ok());
}

#[test]
fn test_fragment_timeout() {
    let mut defragmenter = IpDefragmenter::new();
    let frag1 = create_test_packet(0, true, b"First123");
    let result1 = defragmenter.process_packet(&frag1).unwrap();
    assert!(result1.is_none());
    let mut frag2 = create_test_packet(1, false, b"ABCD");
    frag2.timestamp = 30_000 + 100;
    let result2 = defragmenter.process_packet(&frag2).unwrap();
    assert!(result2.is_none());
    let stats = defragmenter.get_stats();
    assert_eq!(stats.expired_groups, 1);
    assert_eq!(stats.current_groups, 1);
}

#[test]
fn test_max_groups_limit() {
    let mut defrag = IpDefragmenter::new();
    defrag.set_max_groups(1);
    let mut frag1 = create_test_packet(0, true, b"First123");
    frag1.ip_header.identification = 100;
    let result1 = defrag.process_packet(&frag1);
    assert!(result1.is_ok());
    let mut frag2 = create_test_packet(0, true, b"Second12");
    frag2.ip_header.identification = 200;
    let result2 = defrag.process_packet(&frag2);
    assert!(result2.is_err());
    assert_eq!(defrag.get_stats().current_groups, 1);
}

// S2: two fragments of one datagram.
#[test]
fn two_fragment_datagram() {
    let mut defrag = IpDefragmenter::new();
    let mut a = create_test_packet(0, true, b"abcdefgh");
    a.ip_header.identification = 1234;
    let mut b = create_test_packet(1, false, b"ijkl");
    b.ip_header.identification = 1234;
    assert_eq!(defrag.process_packet(&a), Ok(None));
    let whole = defrag.process_packet(&b).unwrap().unwrap();
    assert_eq!(whole.payload, b"abcdefghijkl".to_vec());
    assert_eq!(whole.ip_header.total_length, 32);
    assert!(!whole.ip_header.more_fragments);
    assert_eq!(whole.ip_header.fragment_offset, 0);
    assert_eq!(whole.ip_header.header_checksum, 0);
}

// Fragments out of order reassemble to the same bytes.
#[test]
fn fragments_out_of_order() {
    let mut defrag = IpDefragmenter::new();
    let parts: [(u16, bool, &[u8]); 3] = [(2, false, b"XYZ"), (0, true, b"01234567"), (1, true, b"89abcdef")];
    let mut last = None;
    for (off, mf, data) in parts.iter() {
        last = defrag.process_packet(&create_test_packet(*off, *mf, data)).unwrap();
    }
    assert_eq!(last.unwrap().payload, b"0123456789abcdefXYZ".to_vec());
}

// Resource cap: the (n+1)th new group is refused and the others stay.
#[test]
fn fragment_group_cap() {
    let mut defrag = IpDefragmenter::new();
    defrag.set_max_groups(3);
    for id in 0..3u16 {
        let mut f = create_test_packet(0, true, b"aaaaaaaa");
        f.ip_header.identification = id;
        assert_eq!(defrag.process_packet(&f), Ok(None));
    }
    let mut f = create_test_packet(0, true, b"aaaaaaaa");
    f.ip_header.identification = 99;
    assert_eq!(
        defrag.process_packet(&f),
        Err(ReassembleError::PacketError(PacketError::TooManyFragments))
    );
    assert_eq!(defrag.get_stats().current_groups, 3);
}

#[test]
fn fragment_policies_on_overlap() {
    for (policy, expect) in [
        (FragmentPolicy::First, b"AAAAAAAAzz".to_vec()),
        (FragmentPolicy::Last, b"BBBBBBBBzz".to_vec()),
        (FragmentPolicy::Longest, b"AAAAAAAAzz".to_vec()),
    ] {
        let mut defrag = IpDefragmenter::with_policy(policy);
        assert_eq!(defrag.process_packet(&create_test_packet(0, true, b"AAAAAAAA")), Ok(None));
        assert_eq!(defrag.process_packet(&create_test_packet(0, true, b"BBBBBBBB")), Ok(None));
        let whole = defrag.process_packet(&create_test_packet(1, false, b"zz")).unwrap().unwrap();
        assert_eq!(whole.payload, expect);
    }
}

#[test]
fn invalid_fragment_is_refused() {
    let mut defrag = IpDefragmenter::new();
    let mut f = create_test_packet(1, true, b"data");
    f.ip_header.protocol = 1;
    assert_eq!(defrag.process_packet(&f), Err(ReassembleError::PacketError(PacketError::InvalidFragment)));
    defrag.clear();
    assert_eq!(defrag.get_stats().current_groups, 0);
}
