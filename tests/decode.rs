use flow_reassembly::{
    decode_packet, decode_tcp_packet, decode_udp_packet, DecodeContext, DecodeError, IpHeader, IpHeaderError,
    TcpHeaderError, TransportProtocol, UdpHeaderError,
};

fn frame_with(ip_and_rest: &[u8]) -> Vec<u8> {
    let mut f = vec![0x00, 0x00, 0x00, 0x00, 0x00, 0x01, 0x00, 0x00, 0x00, 0x00, 0x00, 0x02, 0x08, 0x00];
    f.extend_from_slice(ip_and_rest);
    f
}

#[test]
fn test_decode_packet() {
    let data = frame_with(&[
        0x45, 0x00, 0x00, 0x3c, 0x00, 0x01, 0x40, 0x00, 0x40, 0x06, 0x00, 0x00, 0x7f, 0x00, 0x00, 0x01, 0x7f,
        0x00, 0x00, 0x01, 0x00, 0x50, 0x00, 0x50, 0x00, 0x00, 0x00, 0x00, 0x00, 0x00, 0x00, 0x00, 0x50, 0x02,
        0x20, 0x00, 0x00, 0x00, 0x00, 0x00, 0x00,
    ]);
    let result = decode_packet(&mut DecodeContext::new(), &data, 0);
    assert!(result.is_ok());
    let decoded = result.unwrap();
    assert_eq!(decoded.ip_header.version, 4);
    assert_eq!(decoded.ip_header.protocol, 6);
    match decoded.protocol {
        TransportProtocol::TCP { seq, flags, window, src_port, dst_port, .. } => {
            assert_eq!(seq, 0);
            assert_eq!(flags, 0x02);
            assert_eq!(window, 0x2000);
            assert_eq!(src_port, 80);
            assert_eq!(dst_port, 80);
        }
        _ => panic!("Expected TCP protocol"),
    }
}

#[test]
fn test_decode_invalid_ip_version() {
    let data = frame_with(&[
        0x60, 0x00, 0x00, 0x3c, 0x00, 0x01, 0x40, 0x00, 0x40, 0x06, 0x00, 0x00, 0x7f, 0x00, 0x00, 0x01, 0x7f,
        0x00, 0x00, 0x01,
    ]);
    let result = decode_packet(&mut DecodeContext::new(), &data, 0);
    assert!(result.is_err());
    match result {
        Err(DecodeError::IpHeaderError(IpHeaderError::UnsupportedVersion { version })) => {
            assert_eq!(version, 6);
        }
        _ => panic!("Expected UnsupportedVersion error"),
    }
}

#[test]
fn decode_test_decode_invalid_tcp_flags() {
    let data = frame_with(&[
        0x45, 0x00, 0x00, 0x3c, 0x00, 0x01, 0x40, 0x00, 0x40, 0x06, 0x00, 0x00, 0x7f, 0x00, 0x00, 0x01, 0x7f,
        0x00, 0x00, 0x01, 0x00, 0x50, 0x00, 0x50, 0x00, 0x00, 0x00, 0x00, 0x00, 0x00, 0x00, 0x00, 0x50, 0x00,
        0x20, 0x00, 0x00, 0x00, 0x00, 0x00,
    ]);
    let result = decode_packet(&mut DecodeContext::new(), &data, 0);
    assert!(result.is_err());
    match result {
        Err(DecodeError::TcpHeaderError(TcpHeaderError::InvalidFlags(flags))) => {
            assert_eq!(flags, 0x00);
        }
        _ => panic!("Expected InvalidFlags error"),
    }
}

#[test]
fn test_decode_ipv6() {
    let mut data = vec![0x00, 0x00, 0x00, 0x00, 0x00, 0x01, 0x00, 0x00, 0x00, 0x00, 0x00, 0x02, 0x86, 0xDD];
    data.extend_from_slice(&[0x60, 0x00, 0x00, 0x00, 0x00, 0x14, 0x06, 0x40]);
    data.extend_from_slice(&[0, 0, 0, 0, 0, 0, 0, 0, 0, 0, 0, 0, 0, 0, 0, 1]);
    data.extend_from_slice(&[0, 0, 0, 0, 0, 0, 0, 0, 0, 0, 0, 0, 0, 0, 0, 1]);
    let result = decode_packet(&mut DecodeContext::new(), &data, 0);
    assert!(result.is_err());
    match result {
        Err(DecodeError::IpHeaderError(IpHeaderError::UnsupportedVersion { version })) => {
            assert_eq!(version, 6);
        }
        _ => panic!("Expected UnsupportedVersion error"),
    }
}

#[test]
fn test_decode_tcp_packet() {
    let data = [
        0x00, 0x50, 0x00, 0x50, 0x00, 0x00, 0x00, 0x01, 0x00, 0x00, 0x00, 0x00, 0x50, 0x18, 0x20, 0x00, 0x00,
        0x00, 0x00, 0x00, 0x48, 0x65, 0x6c, 0x6c, 0x6f,
    ];
    let mut ctx = DecodeContext::new();
    let result = decode_tcp_packet(&mut ctx, &data);
    assert!(result.is_ok());
    match result.unwrap() {
        TransportProtocol::TCP { src_port, dst_port, seq, ack, flags, window, payload } => {
            assert_eq!(src_port, 80);
            assert_eq!(dst_port, 80);
            assert_eq!(seq, 1);
            assert_eq!(ack, 0);
            assert_eq!(flags, 0x18);
            assert_eq!(window, 8192);
            assert_eq!(&payload[..], b"Hello");
        }
        _ => panic!("Expected TCP protocol"),
    }
}

#[test]
fn decode_tcp_test_decode_invalid_tcp_flags() {
    let data = [
        0x00, 0x50, 0x00, 0x50, 0x00, 0x00, 0x00, 0x01, 0x00, 0x00, 0x00, 0x00, 0x50, 0x00, 0x20, 0x00, 0x00,
        0x00, 0x00, 0x00,
    ];
    let mut ctx = DecodeContext::new();
    let result = decode_tcp_packet(&mut ctx, &data);
    assert!(matches!(result, Err(DecodeError::TcpHeaderError(TcpHeaderError::InvalidFlags(_)))));
    assert_eq!(ctx.stats.errors, 1);
}

#[test]
fn test_decode_invalid_header_length() {
    let data = [
        0x00, 0x50, 0x00, 0x50, 0x00, 0x00, 0x00, 0x01, 0x00, 0x00, 0x00, 0x00, 0x00, 0x18, 0x20, 0x00, 0x00,
        0x00, 0x00, 0x00,
    ];
    let mut ctx = DecodeContext::new();
    let result = decode_tcp_packet(&mut ctx, &data);
    assert!(matches!(result, Err(DecodeError::TcpHeaderError(TcpHeaderError::InvalidLength(_)))));
    assert_eq!(ctx.stats.errors, 1);
}

#[test]
fn test_decode_udp_packet() {
    let data = [0x00, 0x35, 0x00, 0x35, 0x00, 0x08, 0x00, 0x00, 0x48, 0x65, 0x6c, 0x6c, 0x6f];
    let mut ctx = DecodeContext::new();
    let result = decode_udp_packet(&mut ctx, &data);
    assert!(result.is_ok(), "{:?}", result);
    match result.unwrap() {
        TransportProtocol::UDP { src_port, dst_port, payload } => {
            assert_eq!(src_port, 53);
            assert_eq!(dst_port, 53);
            assert_eq!(&payload[..], b"Hello");
        }
        _ => panic!("Expected UDP protocol"),
    }
}

#[test]
fn test_decode_invalid_udp_length() {
    let data = [0x00, 0x35, 0x00, 0x35, 0x00, 0x04, 0x00, 0x00];
    let mut ctx = DecodeContext::new();
    let result = decode_udp_packet(&mut ctx, &data);
    assert!(matches!(result, Err(DecodeError::UdpHeaderError(_))));
    assert_eq!(ctx.stats.errors, 1);
}

#[test]
fn test_struct_creation() {
    let ip_header = IpHeader {
        version: 4,
        ihl: 5,
        tos: 0,
        total_length: 60,
        identification: 1234,
        flags: 0,
        more_fragments: false,
        fragment_offset: 0,
        ttl: 64,
        protocol: 6,
        header_checksum: 0,
        source_ip: 0xc0a80001,
        dest_ip: 0xc0a80002,
    };
    assert_eq!(ip_header.version, 4);
    assert_eq!(ip_header.protocol, 6);
    assert_eq!(ip_header.source_ip, 0xc0a80001);
    assert_eq!(ip_header.dest_ip, 0xc0a80002);
    let frame: Vec<u8> = vec![
        0x00, 0x11, 0x22, 0x33, 0x44, 0x55, 0x66, 0x77, 0x88, 0x99, 0xaa, 0xbb, 0x08, 0x00, 0x45, 0x00, 0x00,
        0x1c, 0x00, 0x01, 0x00, 0x00, 0x40, 0x06, 0x00, 0x00, 0xc0, 0xa8, 0x00, 0x01, 0xc0, 0xa8, 0x00, 0x02,
        0x04, 0xd2, 0x00, 0x50, 0x00, 0x00, 0x00, 0x00,
    ];
    let timestamp: u64 = 12345678;
    assert!(frame.len() > 0);
    assert_eq!(timestamp, 12345678);
}

// Each header field comes out as written in the frame.
#[test]
fn decode_fields_bit_match() {
    let data = frame_with(&[
        0x45, 0x10, 0x00, 0x2d, 0x12, 0x34, 0x00, 0x00, 0x37, 0x06, 0xab, 0xcd, 0xc0, 0xa8, 0x00, 0x01, 0xc0,
        0xa8, 0x00, 0x02, 0x04, 0xd2, 0x00, 0x50, 0x00, 0x00, 0x00, 0x01, 0xde, 0xad, 0xbe, 0xef, 0x50, 0x18,
        0x01, 0x00, 0x00, 0x00, 0x00, 0x00, b'H', b'e', b'l', b'l', b'o',
    ]);
    let mut ctx = DecodeContext::new();
    let d = decode_packet(&mut ctx, &data, 77).unwrap();
    assert_eq!(d.ip_header.tos, 0x10);
    assert_eq!(d.ip_header.total_length, 45);
    assert_eq!(d.ip_header.identification, 0x1234);
    assert_eq!(d.ip_header.ttl, 0x37);
    assert_eq!(d.ip_header.header_checksum, 0xabcd);
    assert_eq!(d.ip_header.source_ip, 0xc0a80001);
    assert_eq!(d.ip_header.dest_ip, 0xc0a80002);
    assert!(!d.ip_header.more_fragments);
    assert_eq!(d.timestamp, 77);
    match d.protocol {
        TransportProtocol::TCP { src_port, dst_port, seq, ack, flags, window, payload } => {
            assert_eq!(src_port, 1234);
            assert_eq!(dst_port, 80);
            assert_eq!(seq, 1);
            assert_eq!(ack, 0xdeadbeef);
            assert_eq!(flags, 0x18);
            assert_eq!(window, 256);
            assert_eq!(payload, b"Hello".to_vec());
        }
        _ => panic!("expected TCP"),
    }
    assert_eq!(ctx.stats.ethernet_packets, 1);
    assert_eq!(ctx.stats.ipv4_packets, 1);
    assert_eq!(ctx.stats.tcp_packets, 1);
    assert_eq!(ctx.stats.errors, 0);
}

#[test]
fn decode_fragment_keeps_payload_verbatim() {
    // MF set (0x2000): the payload is not parsed as a TCP header.
    let data = frame_with(&[
        0x45, 0x00, 0x00, 0x1c, 0x00, 0x07, 0x20, 0x00, 0x40, 0x06, 0x00, 0x00, 0x0a, 0x00, 0x00, 0x01, 0x0a,
        0x00, 0x00, 0x02, 1, 2, 3, 4, 5, 6, 7, 8,
    ]);
    let d = decode_packet(&mut DecodeContext::new(), &data, 0).unwrap();
    assert!(d.ip_header.more_fragments);
    assert_eq!(d.ip_header.fragment_offset, 0);
    match d.protocol {
        TransportProtocol::TCP { seq, flags, src_port, payload, .. } => {
            assert_eq!(seq, 0);
            assert_eq!(flags, 0);
            assert_eq!(src_port, 0);
            assert_eq!(payload, vec![1, 2, 3, 4, 5, 6, 7, 8]);
        }
        _ => panic!("expected TCP"),
    }
}

#[test]
fn decode_error_variants() {
    let mut ctx = DecodeContext::new();
    assert_eq!(decode_packet(&mut ctx, &[], 0), Err(DecodeError::EmptyPacket));
    assert_eq!(
        decode_packet(&mut ctx, &[0u8; 10], 0),
        Err(DecodeError::InsufficientLength { required: 14, actual: 10 })
    );
    let mut arp = vec![0u8; 12];
    arp.extend_from_slice(&[0x08, 0x06]);
    assert_eq!(decode_packet(&mut ctx, &arp, 0), Err(DecodeError::UnsupportedEtherType { ether_type: 0x0806 }));
    let short = frame_with(&[0x45, 0x00, 0x00]);
    assert_eq!(decode_packet(&mut ctx, &short, 0), Err(DecodeError::IpHeaderError(IpHeaderError::TooShort)));
    let bad_total = frame_with(&[
        0x45, 0x00, 0x00, 0x10, 0, 0, 0, 0, 64, 6, 0, 0, 1, 1, 1, 1, 2, 2, 2, 2,
    ]);
    assert_eq!(
        decode_packet(&mut ctx, &bad_total, 0),
        Err(DecodeError::IpHeaderError(IpHeaderError::InvalidTotalLength { length: 16 }))
    );
    let icmp = frame_with(&[0x45, 0x00, 0x00, 0x14, 0, 0, 0, 0, 64, 1, 0, 0, 1, 1, 1, 1, 2, 2, 2, 2]);
    assert_eq!(decode_packet(&mut ctx, &icmp, 0), Err(DecodeError::UnsupportedProtocol { protocol: 1 }));
    let udp_short = frame_with(&[0x45, 0x00, 0x00, 0x18, 0, 0, 0, 0, 64, 17, 0, 0, 1, 1, 1, 1, 2, 2, 2, 2, 0, 53, 0, 53]);
    assert_eq!(decode_packet(&mut ctx, &udp_short, 0), Err(DecodeError::UdpHeaderError(UdpHeaderError::TooShort)));
    assert_eq!(ctx.stats.errors, 7);
    assert!(DecodeError::IpHeaderError(IpHeaderError::TooShort).is_critical());
    assert!(!DecodeError::EmptyPacket.is_critical());
}

#[test]
fn decode_context_tracks_messages() {
    let mut ctx = DecodeContext::new();
    let good = frame_with(&[
        0x45, 0x00, 0x00, 0x28, 0, 1, 0, 0, 64, 6, 0, 0, 1, 1, 1, 1, 2, 2, 2, 2, 0, 1, 0, 2, 0, 0, 0, 1, 0, 0, 0,
        0, 0x50, 0x10, 0, 0, 0, 0, 0, 0,
    ]);
    assert!(decode_packet(&mut ctx, &good, 0).is_ok());
    assert_eq!(ctx.errors.len(), 0);
    let mut v6 = vec![0u8; 12];
    v6.extend_from_slice(&[0x86, 0xDD]);
    assert!(decode_packet(&mut ctx, &v6, 0).is_err());
    assert_eq!(ctx.errors.len(), 1);
    assert_eq!(ctx.stats.ipv6_packets, 1);
    assert_eq!(ctx.stats.tcp_packets, 1);
}
