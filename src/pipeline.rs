//! The packet path: decode, defragment, decode again, reassemble.
use vstd::prelude::*;
use crate::decode::{
    decode_packet, decode_tcp_packet, decode_udp_packet, decoded_matches, frame_error, frame_is_fragment,
    frame_protocol, tcp_error, tcp_matches, udp_error, udp_matches, DecodeContext, DecodeError, DecodedPacket,
};
use crate::defrag::{copy_bytes, copy_packet, defrag_step, is_fragment, is_fragment_packet, same_packet, IpDefragmenter};
use crate::error::{PacketError, ReassembleError};
use crate::stream::{shard_of, sharded_step, ShardConfig, ShardedTcpReassembler};
use crate::stream_tcp::{packet_flow_key, shard_step};

verus! {

/// `r` is the decoding of the transport header at the start of the
/// payload of the whole datagram `packet`.
pub open spec fn transport_decoded(packet: DecodedPacket, r: Result<DecodedPacket, DecodeError>) -> bool {
    &&& (packet.ip_header.protocol == 6 ==> (r is Ok <==> tcp_error(packet.payload@) is None))
    &&& (packet.ip_header.protocol == 6 && r is Err ==> Some(r->Err_0) == tcp_error(packet.payload@))
    &&& (packet.ip_header.protocol == 6 && r is Ok ==> tcp_matches(r->Ok_0.protocol, packet.payload@))
    &&& (packet.ip_header.protocol == 17 ==> (r is Ok <==> udp_error(packet.payload@) is None))
    &&& (packet.ip_header.protocol == 17 && r is Err ==> Some(r->Err_0) == udp_error(packet.payload@))
    &&& (packet.ip_header.protocol == 17 && r is Ok ==> udp_matches(r->Ok_0.protocol, packet.payload@))
    &&& (packet.ip_header.protocol != 6 && packet.ip_header.protocol != 17 ==> r == Err::<DecodedPacket, DecodeError>(
        DecodeError::UnsupportedProtocol { protocol: packet.ip_header.protocol },
    ))
    &&& (r is Ok ==> r->Ok_0.ip_header == packet.ip_header && r->Ok_0.timestamp == packet.timestamp
        && r->Ok_0.payload@ == packet.payload@)
}

/// Decodes the TCP or UDP header of a whole datagram rebuilt from
/// fragments, whose transport header sits at the start of its payload.
pub fn decode_transport(ctx: &mut DecodeContext, packet: &DecodedPacket) -> (r: Result<DecodedPacket, DecodeError>)
    ensures
        transport_decoded(*packet, r),
        packet.ip_header.protocol == 6 ==> (r is Ok <==> tcp_error(packet.payload@) is None),
        packet.ip_header.protocol == 6 && r is Err ==> Some(r->Err_0) == tcp_error(packet.payload@),
        packet.ip_header.protocol == 6 && r is Ok ==> tcp_matches(r->Ok_0.protocol, packet.payload@),
        packet.ip_header.protocol == 17 ==> (r is Ok <==> udp_error(packet.payload@) is None),
        packet.ip_header.protocol == 17 && r is Err ==> Some(r->Err_0) == udp_error(packet.payload@),
        packet.ip_header.protocol == 17 && r is Ok ==> udp_matches(r->Ok_0.protocol, packet.payload@),
        packet.ip_header.protocol != 6 && packet.ip_header.protocol != 17 ==> r == Err::<DecodedPacket, DecodeError>(
            DecodeError::UnsupportedProtocol { protocol: packet.ip_header.protocol },
        ),
        r is Ok ==> r->Ok_0.ip_header == packet.ip_header && r->Ok_0.timestamp == packet.timestamp
            && r->Ok_0.payload@ == packet.payload@,
{
    let protocol = if packet.ip_header.protocol == 6 {
        decode_tcp_packet(ctx, packet.payload.as_slice())?
    } else if packet.ip_header.protocol == 17 {
        decode_udp_packet(ctx, packet.payload.as_slice())?
    } else {
        return Err(DecodeError::UnsupportedProtocol { protocol: packet.ip_header.protocol });
    };
    Ok(DecodedPacket {
        ip_header: packet.ip_header,
        protocol,
        timestamp: packet.timestamp,
        payload: copy_bytes(&packet.payload),
    })
}

/// What `whole_packet` does: a packet that is no fragment comes back as
/// it is; a fragment goes through the defragmenter (`defrag_step`), and a
/// datagram it completes comes back once its transport header is decoded
/// (`transport_decoded`).
pub open spec fn whole_step(
    a: IpDefragmenter,
    d: DecodedPacket,
    b: IpDefragmenter,
    r: Result<Option<DecodedPacket>, ReassembleError>,
) -> bool {
    &&& b.wf()
    &&& (!is_fragment(d) ==> r is Ok && r->Ok_0 is Some && same_packet(r->Ok_0->Some_0, d) && b == a)
    &&& (is_fragment(d) ==> exists|dr: Result<Option<DecodedPacket>, ReassembleError>|
        #[trigger] defrag_step(a, d, b, dr) && match dr {
            Err(e) => r == Err::<Option<DecodedPacket>, ReassembleError>(e),
            Ok(None) => r == Ok::<Option<DecodedPacket>, ReassembleError>(None),
            Ok(Some(w)) => exists|tr: Result<DecodedPacket, DecodeError>|
                #[trigger] transport_decoded(w, tr) && match tr {
                    Ok(full) => r == Ok::<Option<DecodedPacket>, ReassembleError>(Some(full)),
                    Err(_) => r == Err::<Option<DecodedPacket>, ReassembleError>(
                        ReassembleError::PacketError(PacketError::DecodeError),
                    ),
                },
        })
}

/// Turns a decoded packet into one ready for reassembly: a whole packet
/// as it is, a fragment through the defragmenter and, once its datagram is
/// complete, through a second decoding of its transport header.
pub fn whole_packet(ctx: &mut DecodeContext, defragmenter: &mut IpDefragmenter, decoded: &DecodedPacket) -> (r: Result<
    Option<DecodedPacket>,
    ReassembleError,
>)
    requires
        old(defragmenter).wf(),
    ensures
        whole_step(*old(defragmenter), *decoded, *final(defragmenter), r),
{
    if !is_fragment_packet(decoded) {
        return Ok(Some(copy_packet(decoded)));
    }
    let dr = defragmenter.process_packet(decoded);
    let ghost dr_v = dr;
    let whole = match dr {
        Ok(Some(w)) => w,
        Ok(None) => {
            assert(defrag_step(*old(defragmenter), *decoded, *defragmenter, dr_v));
            return Ok(None);
        },
        Err(e) => {
            assert(defrag_step(*old(defragmenter), *decoded, *defragmenter, dr_v));
            return Err(e);
        },
    };
    let tr = decode_transport(ctx, &whole);
    assert(defrag_step(*old(defragmenter), *decoded, *defragmenter, dr_v));
    assert(transport_decoded(whole, tr));
    match tr {
        Ok(full) => Ok(Some(full)),
        Err(_) => Err(ReassembleError::PacketError(PacketError::DecodeError)),
    }
}

/// The whole core: a decoding context, a defragmenter and a sharded
/// reassembler.
#[derive(Debug)]
pub struct Pipeline {
    pub ctx: DecodeContext,
    pub defragmenter: IpDefragmenter,
    pub reassembler: ShardedTcpReassembler,
}

impl Pipeline {
    pub open spec fn wf(&self) -> bool {
        self.defragmenter.wf() && self.reassembler.wf()
    }

    pub fn new(config: ShardConfig) -> (r: Self)
        ensures
            r.wf(),
            r.defragmenter.groups@.len() == 0,
    {
        Pipeline {
            ctx: DecodeContext::new(),
            defragmenter: IpDefragmenter::new(),
            reassembler: ShardedTcpReassembler::new(config),
        }
    }

    /// Takes one captured frame. A frame that does not decode is an error.
    /// A fragment goes to the defragmenter, and the datagram it completes
    /// is decoded again. A whole TCP packet goes to the shard of its flow,
    /// and the bytes that flow delivers come back.
    pub fn process_frame(&mut self, bytes: &[u8], timestamp: u64) -> (r: Result<Option<Vec<u8>>, ReassembleError>)
        requires
            old(self).wf(),
        ensures
            final(self).wf(),
            frame_error(bytes@) is Some ==> r == Err::<Option<Vec<u8>>, ReassembleError>(
                ReassembleError::PacketError(PacketError::DecodeError),
            ),
            frame_error(bytes@) is None && frame_is_fragment(bytes@) ==> exists|
                d: DecodedPacket,
                w: Result<Option<DecodedPacket>, ReassembleError>,
            |
                decoded_matches(d, bytes@, timestamp) && #[trigger] whole_step(
                    old(self).defragmenter,
                    d,
                    final(self).defragmenter,
                    w,
                ) && match w {
                    Err(e) => r == Err::<Option<Vec<u8>>, ReassembleError>(e) && final(self).reassembler
                        == old(self).reassembler,
                    Ok(None) => r == Ok::<Option<Vec<u8>>, ReassembleError>(None) && final(self).reassembler == old(
                        self,
                    ).reassembler,
                    Ok(Some(full)) => r is Ok && sharded_step(old(self).reassembler, full, final(self).reassembler, r->Ok_0),
                },
            frame_error(bytes@) is None && !frame_is_fragment(bytes@) && frame_protocol(bytes@) == 17 ==> r
                == Ok::<Option<Vec<u8>>, ReassembleError>(None),
            frame_error(bytes@) is None && !frame_is_fragment(bytes@) && frame_protocol(bytes@) == 6 ==> r is Ok
                && exists|d: DecodedPacket|
                decoded_matches(d, bytes@, timestamp) && #[trigger] shard_step(
                    old(self).reassembler.shards@[shard_of(packet_flow_key(d), old(self).reassembler.shard_count as int)],
                    d,
                    final(self).reassembler.shards@[shard_of(packet_flow_key(d), old(self).reassembler.shard_count as int)],
                    r->Ok_0,
                ),
    {
        let decoded = match decode_packet(&mut self.ctx, bytes, timestamp) {
            Ok(d) => d,
            Err(_) => {
                return Err(ReassembleError::PacketError(PacketError::DecodeError));
            },
        };
        if is_fragment_packet(&decoded) {
            let ghost old_re = self.reassembler;
            let w = whole_packet(&mut self.ctx, &mut self.defragmenter, &decoded);
            let ghost w_v = w;
            proof {
                assert(decoded_matches(decoded, bytes@, timestamp));
                assert(whole_step(old(self).defragmenter, decoded, self.defragmenter, w_v));
            }
            return match w {
                Err(e) => Err(e),
                Ok(None) => Ok(None),
                Ok(Some(full)) => self.reassembler.process_packet(&full),
            };
        }
        let r = self.reassembler.process_packet(&decoded);
        proof {
            if frame_protocol(bytes@) == 6 {
                assert(decoded_matches(decoded, bytes@, timestamp));
            }
        }
        r
    }
}

} // verus!
