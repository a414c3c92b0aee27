//! Strict decoding of Ethernet II / IPv4 / TCP / UDP framing.
use vstd::prelude::*;
use vstd::slice::slice_to_vec;

verus! {

pub const ETHERNET_HEADER_SIZE: usize = 14;
pub const IPV4_MIN_HEADER_SIZE: usize = 20;
pub const TCP_HEADER_MIN_SIZE: usize = 20;
pub const UDP_HEADER_SIZE: usize = 8;
pub const ETHERTYPE_IPV4: u16 = 0x0800;
pub const ETHERTYPE_IPV6: u16 = 0x86DD;
pub const IP_PROTOCOL_TCP: u8 = 6;
pub const IP_PROTOCOL_UDP: u8 = 17;

/// A big-endian 16-bit field at byte `i`.
pub open spec fn be16(b: Seq<u8>, i: int) -> int {
    b[i] * 256 + b[i + 1]
}

/// A big-endian 32-bit field at byte `i`.
pub open spec fn be32(b: Seq<u8>, i: int) -> int {
    ((b[i] * 256 + b[i + 1]) * 256 + b[i + 2]) * 256 + b[i + 3]
}

fn read_be16(b: &[u8], i: usize) -> (r: u16)
    requires
        i + 2 <= b@.len(),
    ensures
        r == be16(b@, i as int),
{
    b[i] as u16 * 256 + b[i + 1] as u16
}

fn read_be32(b: &[u8], i: usize) -> (r: u32)
    requires
        i + 4 <= b@.len(),
    ensures
        r == be32(b@, i as int),
{
    ((b[i] as u32 * 256 + b[i + 1] as u32) * 256 + b[i + 2] as u32) * 256 + b[i + 3] as u32
}

/// The fields of an IPv4 header, converted to host order.
#[derive(Debug, Clone, Copy, PartialEq, Eq, Structural)]
pub struct IpHeader {
    pub version: u8,
    pub ihl: u8,
    pub tos: u8,
    pub total_length: u16,
    pub identification: u16,
    pub flags: u8,
    pub fragment_offset: u16,
    pub more_fragments: bool,
    pub ttl: u8,
    pub protocol: u8,
    pub header_checksum: u16,
    pub source_ip: u32,
    pub dest_ip: u32,
}

/// The transport layer of a decoded packet.
#[derive(Debug, Clone, PartialEq, Eq)]
pub enum TransportProtocol {
    TCP { seq: u32, ack: u32, flags: u8, window: u16, src_port: u16, dst_port: u16, payload: Vec<u8> },
    UDP { src_port: u16, dst_port: u16, payload: Vec<u8> },
}

/// A frame taken apart: its IP header, its transport layer, the capture
/// timestamp and the bytes that follow the IP header.
#[derive(Debug, Clone, PartialEq, Eq)]
pub struct DecodedPacket {
    pub ip_header: IpHeader,
    pub protocol: TransportProtocol,
    pub timestamp: u64,
    pub payload: Vec<u8>,
}

impl DecodedPacket {
    /// The bytes of a TCP packet's payload; nothing for UDP.
    pub fn to_vec(&self) -> (r: Vec<u8>)
        ensures
            self.protocol is TCP ==> r@ == self.protocol->TCP_payload@,
            self.protocol is UDP ==> r@.len() == 0,
    {
        match &self.protocol {
            TransportProtocol::TCP { payload, .. } => slice_to_vec(payload.as_slice()),
            TransportProtocol::UDP { .. } => Vec::new(),
        }
    }
}

impl TransportProtocol {
    /// The bytes the transport layer carries.
    pub fn get_payload(&self) -> (r: &Vec<u8>)
        ensures
            self is TCP ==> r == self->TCP_payload,
            self is UDP ==> r == self->UDP_payload,
    {
        match self {
            TransportProtocol::TCP { payload, .. } => payload,
            TransportProtocol::UDP { payload, .. } => payload,
        }
    }
}

/// What went wrong in an IPv4 header.
#[derive(Debug, Clone, PartialEq, Eq)]
pub enum IpHeaderError {
    TooShort,
    UnsupportedVersion { version: u8 },
    InvalidTotalLength { length: u16 },
    UnsupportedProtocol { protocol: u8 },
    InvalidSourceIp { ip: u32 },
    InvalidDestinationIp { ip: u32 },
    InvalidChecksum,
    TooManyFragments,
    InvalidFragment,
    IncompleteFragments,
}

/// What went wrong in a TCP header.
#[derive(Debug, Clone, PartialEq, Eq)]
pub enum TcpHeaderError {
    TooShort,
    InvalidLength(usize),
    InvalidPort { port: u16 },
    InvalidSequence { seq: u32 },
    InvalidFlags(u8),
    InvalidChecksum,
}

/// What went wrong in a UDP header.
#[derive(Debug, Clone, PartialEq, Eq)]
pub enum UdpHeaderError {
    TooShort,
    InvalidLength,
    InvalidPort { port: u16 },
    InvalidChecksum,
}

/// What went wrong with a buffer.
#[derive(Debug, Clone, PartialEq, Eq)]
pub enum BufferError {
    TooShort,
    EmptyBuffer,
    Overflow,
}

/// Why a frame could not be decoded.
#[derive(Debug, Clone, PartialEq, Eq)]
pub enum DecodeError {
    EmptyPacket,
    InsufficientLength { required: usize, actual: usize },
    UnsupportedEtherType { ether_type: u16 },
    IpHeaderError(IpHeaderError),
    TcpHeaderError(TcpHeaderError),
    UdpHeaderError(UdpHeaderError),
    UnsupportedProtocol { protocol: u8 },
    ChecksumError { expected: u16, actual: u16 },
    BufferError(BufferError),
    Other(String),
}

impl DecodeError {
    /// Header errors are critical; the others can be recovered from.
    pub fn is_critical(&self) -> (r: bool)
        ensures
            r == (self is IpHeaderError || self is TcpHeaderError || self is UdpHeaderError),
    {
        match self {
            DecodeError::IpHeaderError(_) => true,
            DecodeError::TcpHeaderError(_) => true,
            DecodeError::UdpHeaderError(_) => true,
            _ => false,
        }
    }
}

/// Counters kept by a decoding context.
#[derive(Debug, Clone, Copy, Default)]
pub struct DecodeStats {
    pub ethernet_packets: usize,
    pub ipv4_packets: usize,
    pub ipv6_packets: usize,
    pub tcp_packets: usize,
    pub udp_packets: usize,
    pub errors: usize,
}

/// A counter that stops at its largest value.
pub open spec fn bumped(n: usize) -> usize {
    if n < usize::MAX {
        (n + 1) as usize
    } else {
        n
    }
}

pub fn bump(n: usize) -> (r: usize)
    ensures
        r == bumped(n),
{
    if n < usize::MAX {
        n + 1
    } else {
        n
    }
}

/// Per-caller decoding state: counters and the messages of the errors met.
#[derive(Debug)]
pub struct DecodeContext {
    pub stats: DecodeStats,
    pub errors: Vec<String>,
}

impl DecodeContext {
    pub fn new() -> (r: Self)
        ensures
            r.stats.ethernet_packets == 0,
            r.stats.ipv4_packets == 0,
            r.stats.ipv6_packets == 0,
            r.stats.tcp_packets == 0,
            r.stats.udp_packets == 0,
            r.stats.errors == 0,
            r.errors@.len() == 0,
    {
        DecodeContext {
            stats: DecodeStats {
                ethernet_packets: 0,
                ipv4_packets: 0,
                ipv6_packets: 0,
                tcp_packets: 0,
                udp_packets: 0,
                errors: 0,
            },
            errors: Vec::new(),
        }
    }

    /// Counts one error and keeps its message.
    pub fn record_error(&mut self, err: &str)
        ensures
            final(self).stats.errors == bumped(old(self).stats.errors),
            final(self).stats.ethernet_packets == old(self).stats.ethernet_packets,
            final(self).stats.ipv4_packets == old(self).stats.ipv4_packets,
            final(self).stats.ipv6_packets == old(self).stats.ipv6_packets,
            final(self).stats.tcp_packets == old(self).stats.tcp_packets,
            final(self).stats.udp_packets == old(self).stats.udp_packets,
            final(self).errors@ == old(self).errors@.push(final(self).errors@.last()),
            final(self).errors@.last()@ == err@,
    {
        self.stats.errors = bump(self.stats.errors);
        self.errors.push(err.to_owned());
    }
}

// ---------------------------------------------------------------------
// IPv4 header
// ---------------------------------------------------------------------

/// The error of an IPv4 header held in `b`, if any.
pub open spec fn ip_header_error(b: Seq<u8>) -> Option<DecodeError> {
    if b.len() < 20 {
        Some(DecodeError::IpHeaderError(IpHeaderError::TooShort))
    } else if b[0] / 16 != 4 {
        Some(DecodeError::IpHeaderError(IpHeaderError::UnsupportedVersion { version: (b[0] / 16) as u8 }))
    } else if b[0] % 16 < 5 {
        Some(DecodeError::IpHeaderError(IpHeaderError::TooShort))
    } else if b.len() < (b[0] % 16) * 4 {
        Some(DecodeError::IpHeaderError(IpHeaderError::TooShort))
    } else if be16(b, 2) < (b[0] % 16) * 4 {
        Some(DecodeError::IpHeaderError(IpHeaderError::InvalidTotalLength { length: be16(b, 2) as u16 }))
    } else {
        None
    }
}

/// `h` holds, field by field, the IPv4 header at the start of `b`.
pub open spec fn ip_header_matches(h: IpHeader, b: Seq<u8>) -> bool {
    &&& h.version == b[0] / 16
    &&& h.ihl == b[0] % 16
    &&& h.tos == b[1]
    &&& h.total_length == be16(b, 2)
    &&& h.identification == be16(b, 4)
    &&& h.flags == be16(b, 6) / 8192
    &&& h.fragment_offset == be16(b, 6) % 8192
    &&& h.more_fragments == ((be16(b, 6) / 8192) % 2 == 1)
    &&& h.ttl == b[8]
    &&& h.protocol == b[9]
    &&& h.header_checksum == be16(b, 10)
    &&& h.source_ip == be32(b, 12)
    &&& h.dest_ip == be32(b, 16)
}

/// Decodes the IPv4 header at the start of `data`.
pub fn decode_ip_header(data: &[u8]) -> (r: Result<IpHeader, DecodeError>)
    ensures
        r is Ok <==> ip_header_error(data@) is None,
        r is Err ==> Some(r->Err_0) == ip_header_error(data@),
        r is Ok ==> ip_header_matches(r->Ok_0, data@),
{
    if data.len() < IPV4_MIN_HEADER_SIZE {
        return Err(DecodeError::IpHeaderError(IpHeaderError::TooShort));
    }
    let version = data[0] / 16;
    if version != 4 {
        return Err(DecodeError::IpHeaderError(IpHeaderError::UnsupportedVersion { version }));
    }
    let ihl = data[0] % 16;
    if ihl < 5 {
        return Err(DecodeError::IpHeaderError(IpHeaderError::TooShort));
    }
    let header_length = ihl as usize * 4;
    if data.len() < header_length {
        return Err(DecodeError::IpHeaderError(IpHeaderError::TooShort));
    }
    let total_length = read_be16(data, 2);
    if (total_length as usize) < header_length {
        return Err(DecodeError::IpHeaderError(IpHeaderError::InvalidTotalLength { length: total_length }));
    }
    let flags_and_offset = read_be16(data, 6);
    let flags = (flags_and_offset / 8192) as u8;
    Ok(IpHeader {
        version,
        ihl,
        tos: data[1],
        total_length,
        identification: read_be16(data, 4),
        flags,
        fragment_offset: flags_and_offset % 8192,
        more_fragments: flags % 2 == 1,
        ttl: data[8],
        protocol: data[9],
        header_checksum: read_be16(data, 10),
        source_ip: read_be32(data, 12),
        dest_ip: read_be32(data, 16),
    })
}

// ---------------------------------------------------------------------
// TCP and UDP headers
// ---------------------------------------------------------------------

/// Length in bytes of the TCP header whose first bytes are in `b`.
pub open spec fn tcp_header_len(b: Seq<u8>) -> int {
    (b[12] / 16) * 4
}

/// The error of a TCP segment held in `b`, if any.
pub open spec fn tcp_error(b: Seq<u8>) -> Option<DecodeError> {
    if b.len() < 20 {
        Some(DecodeError::TcpHeaderError(TcpHeaderError::TooShort))
    } else if tcp_header_len(b) < 20 {
        Some(DecodeError::TcpHeaderError(TcpHeaderError::InvalidLength(tcp_header_len(b) as usize)))
    } else if tcp_header_len(b) > b.len() {
        Some(DecodeError::TcpHeaderError(TcpHeaderError::TooShort))
    } else if b[13] % 64 == 0 {
        Some(DecodeError::TcpHeaderError(TcpHeaderError::InvalidFlags(0)))
    } else {
        None
    }
}

/// `t` holds, field by field, the TCP segment held in `b`.
pub open spec fn tcp_matches(t: TransportProtocol, b: Seq<u8>) -> bool {
    match t {
        TransportProtocol::TCP { seq, ack, flags, window, src_port, dst_port, payload } => {
            &&& src_port == be16(b, 0)
            &&& dst_port == be16(b, 2)
            &&& seq == be32(b, 4)
            &&& ack == be32(b, 8)
            &&& flags == b[13] % 64
            &&& window == be16(b, 14)
            &&& payload@ == b.subrange(tcp_header_len(b), b.len() as int)
        },
        _ => false,
    }
}

/// The error of a UDP datagram held in `b`, if any.
pub open spec fn udp_error(b: Seq<u8>) -> Option<DecodeError> {
    if b.len() < 8 {
        Some(DecodeError::UdpHeaderError(UdpHeaderError::TooShort))
    } else if be16(b, 4) < 8 || be16(b, 4) > b.len() {
        Some(DecodeError::UdpHeaderError(UdpHeaderError::InvalidLength))
    } else {
        None
    }
}

/// `t` holds, field by field, the UDP datagram held in `b`.
pub open spec fn udp_matches(t: TransportProtocol, b: Seq<u8>) -> bool {
    match t {
        TransportProtocol::UDP { src_port, dst_port, payload } => {
            &&& src_port == be16(b, 0)
            &&& dst_port == be16(b, 2)
            &&& payload@ == b.subrange(8, b.len() as int)
        },
        _ => false,
    }
}

/// Decodes a TCP segment.
pub fn decode_tcp_packet(ctx: &mut DecodeContext, buffer: &[u8]) -> (r: Result<TransportProtocol, DecodeError>)
    ensures
        r is Ok <==> tcp_error(buffer@) is None,
        r is Err ==> Some(r->Err_0) == tcp_error(buffer@),
        r is Ok ==> tcp_matches(r->Ok_0, buffer@),
        r is Ok ==> final(ctx).stats == old(ctx).stats && final(ctx).errors@ == old(ctx).errors@,
        r is Err ==> final(ctx).stats.errors == bumped(old(ctx).stats.errors),
        r is Err ==> final(ctx).errors@.len() == old(ctx).errors@.len() + 1,
        r is Err ==> final(ctx).stats.tcp_packets == old(ctx).stats.tcp_packets && final(ctx).stats.udp_packets
            == old(ctx).stats.udp_packets && final(ctx).stats.ipv6_packets == old(ctx).stats.ipv6_packets,
{
    if buffer.len() < TCP_HEADER_MIN_SIZE {
        ctx.record_error("TCP header too short");
        return Err(DecodeError::TcpHeaderError(TcpHeaderError::TooShort));
    }
    let header_length = (buffer[12] / 16) as usize * 4;
    if header_length < TCP_HEADER_MIN_SIZE {
        ctx.record_error("TCP header length field below 20 bytes");
        return Err(DecodeError::TcpHeaderError(TcpHeaderError::InvalidLength(header_length)));
    }
    if header_length > buffer.len() {
        ctx.record_error("TCP header length beyond the buffer");
        return Err(DecodeError::TcpHeaderError(TcpHeaderError::TooShort));
    }
    let flags = buffer[13] % 64;
    if flags == 0 {
        ctx.record_error("TCP segment without any flag");
        return Err(DecodeError::TcpHeaderError(TcpHeaderError::InvalidFlags(flags)));
    }
    let payload = slice_to_vec(&buffer[header_length..buffer.len()]);
    Ok(TransportProtocol::TCP {
        src_port: read_be16(buffer, 0),
        dst_port: read_be16(buffer, 2),
        seq: read_be32(buffer, 4),
        ack: read_be32(buffer, 8),
        flags,
        window: read_be16(buffer, 14),
        payload,
    })
}

/// Decodes a UDP datagram.
pub fn decode_udp_packet(ctx: &mut DecodeContext, buffer: &[u8]) -> (r: Result<TransportProtocol, DecodeError>)
    ensures
        r is Ok <==> udp_error(buffer@) is None,
        r is Err ==> Some(r->Err_0) == udp_error(buffer@),
        r is Ok ==> udp_matches(r->Ok_0, buffer@),
        r is Ok ==> final(ctx).stats == old(ctx).stats && final(ctx).errors@ == old(ctx).errors@,
        r is Err ==> final(ctx).stats.errors == bumped(old(ctx).stats.errors),
        r is Err ==> final(ctx).errors@.len() == old(ctx).errors@.len() + 1,
        r is Err ==> final(ctx).stats.tcp_packets == old(ctx).stats.tcp_packets && final(ctx).stats.udp_packets
            == old(ctx).stats.udp_packets && final(ctx).stats.ipv6_packets == old(ctx).stats.ipv6_packets,
{
    if buffer.len() < UDP_HEADER_SIZE {
        ctx.record_error("UDP header too short");
        return Err(DecodeError::UdpHeaderError(UdpHeaderError::TooShort));
    }
    let udp_length = read_be16(buffer, 4);
    if udp_length < 8 || udp_length as usize > buffer.len() {
        ctx.record_error("UDP length field out of range");
        return Err(DecodeError::UdpHeaderError(UdpHeaderError::InvalidLength));
    }
    let payload = slice_to_vec(&buffer[UDP_HEADER_SIZE..buffer.len()]);
    Ok(TransportProtocol::UDP { src_port: read_be16(buffer, 0), dst_port: read_be16(buffer, 2), payload })
}

// ---------------------------------------------------------------------
// Whole frames
// ---------------------------------------------------------------------

/// The EtherType of the frame held in `b`.
pub open spec fn ether_type(b: Seq<u8>) -> int {
    be16(b, 12)
}

/// The bytes of the frame that follow the Ethernet header.
pub open spec fn ip_bytes(b: Seq<u8>) -> Seq<u8> {
    b.subrange(14, b.len() as int)
}

/// The bytes that follow the IPv4 header.
pub open spec fn ip_payload(b: Seq<u8>) -> Seq<u8> {
    let ip = ip_bytes(b);
    ip.subrange((ip[0] % 16) * 4, ip.len() as int)
}

/// The IPv4 header of the frame says that it is a fragment.
pub open spec fn frame_is_fragment(b: Seq<u8>) -> bool {
    let ip = ip_bytes(b);
    be16(ip, 6) % 8192 != 0 || (be16(ip, 6) / 8192) % 2 == 1
}

/// The protocol number in the IPv4 header of the frame.
pub open spec fn frame_protocol(b: Seq<u8>) -> u8 {
    ip_bytes(b)[9]
}

/// The error of the frame held in `b`, if any.
pub open spec fn frame_error(b: Seq<u8>) -> Option<DecodeError> {
    if b.len() == 0 {
        Some(DecodeError::EmptyPacket)
    } else if b.len() < 14 {
        Some(DecodeError::InsufficientLength { required: 14, actual: b.len() as usize })
    } else if ether_type(b) == 0x86DD {
        Some(DecodeError::IpHeaderError(IpHeaderError::UnsupportedVersion { version: 6 }))
    } else if ether_type(b) != 0x0800 {
        Some(DecodeError::UnsupportedEtherType { ether_type: ether_type(b) as u16 })
    } else if ip_header_error(ip_bytes(b)) is Some {
        ip_header_error(ip_bytes(b))
    } else if frame_protocol(b) != 6 && frame_protocol(b) != 17 {
        Some(DecodeError::UnsupportedProtocol { protocol: frame_protocol(b) })
    } else if frame_is_fragment(b) {
        None
    } else if frame_protocol(b) == 6 {
        tcp_error(ip_payload(b))
    } else {
        udp_error(ip_payload(b))
    }
}

/// `t` is the transport layer of a fragment: zeroed header fields and the
/// fragment's bytes as they stand.
pub open spec fn fragment_transport_matches(t: TransportProtocol, protocol: u8, p: Seq<u8>) -> bool {
    if protocol == 6 {
        t == (TransportProtocol::TCP {
            seq: 0,
            ack: 0,
            flags: 0,
            window: 0,
            src_port: 0,
            dst_port: 0,
            payload: t->TCP_payload,
        }) && t->TCP_payload@ == p
    } else {
        t == (TransportProtocol::UDP { src_port: 0, dst_port: 0, payload: t->UDP_payload })
            && t->UDP_payload@ == p
    }
}

/// `d` is the decoding of the valid frame `b` captured at `timestamp`.
pub open spec fn decoded_matches(d: DecodedPacket, b: Seq<u8>, timestamp: u64) -> bool {
    &&& ip_header_matches(d.ip_header, ip_bytes(b))
    &&& d.timestamp == timestamp
    &&& d.payload@ == ip_payload(b)
    &&& if frame_is_fragment(b) {
        fragment_transport_matches(d.protocol, frame_protocol(b), ip_payload(b))
    } else if frame_protocol(b) == 6 {
        tcp_matches(d.protocol, ip_payload(b))
    } else {
        udp_matches(d.protocol, ip_payload(b))
    }
}

/// Decodes one captured frame. Every frame with valid Ethernet, IPv4 and
/// TCP or UDP headers decodes, and the fields of the result are those
/// written in the frame; every other frame gives the first error met.
pub fn decode_packet(ctx: &mut DecodeContext, buffer: &[u8], timestamp: u64) -> (r: Result<
    DecodedPacket,
    DecodeError,
>)
    ensures
        r is Ok <==> frame_error(buffer@) is None,
        r is Err ==> Some(r->Err_0) == frame_error(buffer@),
        r is Ok ==> decoded_matches(r->Ok_0, buffer@, timestamp),
        r is Ok ==> final(ctx).stats.errors == old(ctx).stats.errors,
        r is Ok ==> final(ctx).stats.ethernet_packets == bumped(old(ctx).stats.ethernet_packets),
        r is Ok ==> final(ctx).stats.ipv4_packets == bumped(old(ctx).stats.ipv4_packets),
        r is Ok && frame_protocol(buffer@) == 6 ==> final(ctx).stats.tcp_packets == bumped(
            old(ctx).stats.tcp_packets,
        ),
        r is Ok && frame_protocol(buffer@) == 17 ==> final(ctx).stats.udp_packets == bumped(
            old(ctx).stats.udp_packets,
        ),
        r is Err ==> final(ctx).stats.errors == bumped(old(ctx).stats.errors),
        r is Err ==> final(ctx).errors@.len() == old(ctx).errors@.len() + 1,
        r is Err ==> final(ctx).stats.tcp_packets == old(ctx).stats.tcp_packets && final(ctx).stats.udp_packets
            == old(ctx).stats.udp_packets,
        r is Ok ==> final(ctx).errors@ == old(ctx).errors@,
        r is Ok && frame_protocol(buffer@) == 6 ==> final(ctx).stats.udp_packets == old(ctx).stats.udp_packets,
        r is Ok && frame_protocol(buffer@) == 17 ==> final(ctx).stats.tcp_packets == old(ctx).stats.tcp_packets,
        final(ctx).stats.ipv6_packets == if buffer@.len() >= 14 && ether_type(buffer@) == 0x86DD {
            bumped(old(ctx).stats.ipv6_packets)
        } else {
            old(ctx).stats.ipv6_packets
        },
{
    if buffer.len() == 0 {
        ctx.record_error("empty frame");
        return Err(DecodeError::EmptyPacket);
    }
    if buffer.len() < ETHERNET_HEADER_SIZE {
        ctx.record_error("frame shorter than an Ethernet header");
        return Err(DecodeError::InsufficientLength { required: ETHERNET_HEADER_SIZE, actual: buffer.len() });
    }
    let ether = read_be16(buffer, 12);
    if ether == ETHERTYPE_IPV6 {
        ctx.stats.ipv6_packets = bump(ctx.stats.ipv6_packets);
        ctx.record_error("IPv6 is not supported");
        return Err(DecodeError::IpHeaderError(IpHeaderError::UnsupportedVersion { version: 6 }));
    }
    if ether != ETHERTYPE_IPV4 {
        ctx.record_error("EtherType is not IPv4");
        return Err(DecodeError::UnsupportedEtherType { ether_type: ether });
    }
    ctx.stats.ethernet_packets = bump(ctx.stats.ethernet_packets);
    let ip_data = &buffer[ETHERNET_HEADER_SIZE..buffer.len()];
    let ip_header = match decode_ip_header(ip_data) {
        Ok(h) => h,
        Err(e) => {
            ctx.record_error("invalid IPv4 header");
            return Err(e);
        },
    };
    ctx.stats.ipv4_packets = bump(ctx.stats.ipv4_packets);
    let protocol_number = ip_header.protocol;
    if protocol_number != IP_PROTOCOL_TCP && protocol_number != IP_PROTOCOL_UDP {
        ctx.record_error("unsupported IP protocol");
        return Err(DecodeError::UnsupportedProtocol { protocol: protocol_number });
    }
    let header_size = ip_header.ihl as usize * 4;
    let payload = &ip_data[header_size..ip_data.len()];
    let is_fragment = ip_header.fragment_offset != 0 || ip_header.more_fragments;
    let protocol = if is_fragment {
        if protocol_number == IP_PROTOCOL_TCP {
            ctx.stats.tcp_packets = bump(ctx.stats.tcp_packets);
            TransportProtocol::TCP {
                seq: 0,
                ack: 0,
                flags: 0,
                window: 0,
                src_port: 0,
                dst_port: 0,
                payload: slice_to_vec(payload),
            }
        } else {
            ctx.stats.udp_packets = bump(ctx.stats.udp_packets);
            TransportProtocol::UDP { src_port: 0, dst_port: 0, payload: slice_to_vec(payload) }
        }
    } else if protocol_number == IP_PROTOCOL_TCP {
        let t = decode_tcp_packet(ctx, payload)?;
        ctx.stats.tcp_packets = bump(ctx.stats.tcp_packets);
        t
    } else {
        let t = decode_udp_packet(ctx, payload)?;
        ctx.stats.udp_packets = bump(ctx.stats.udp_packets);
        t
    };
    Ok(DecodedPacket { ip_header, protocol, timestamp, payload: slice_to_vec(payload) })
}

} // verus!
