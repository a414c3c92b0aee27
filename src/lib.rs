//! Live network-traffic reconstruction: a frame decoder, an IPv4
//! defragmenter and a sharded TCP stream reassembler, each stated by
//! contracts over plain mathematical models.

pub mod config;
pub mod decode;
pub mod defrag;
pub mod error;
pub mod pipeline;
pub mod pool;
pub mod seqnum;
pub mod stream;
pub mod stream_tcp;
pub mod worker;

pub use config::Config;
pub use decode::{
    decode_ip_header, decode_packet, decode_tcp_packet, decode_udp_packet, BufferError, DecodeContext,
    DecodeError, DecodeStats, DecodedPacket, IpHeader, IpHeaderError, TcpHeaderError, TransportProtocol,
    UdpHeaderError,
};
pub use defrag::{
    is_fragment_packet, DefragStats, DefragStatsSnapshot, Fragment, FragmentGroup, FragmentPolicy, IpDefragmenter,
};
pub use error::{PacketError, ReassembleError};
pub use pipeline::{decode_transport, whole_packet, Pipeline};
pub use pool::{init_memory_pool, BufferPool, MemoryBlock, MemoryPool, MemoryPoolConfig, MemoryPoolStats, PoolError};
pub use seqnum::{
    is_seq_after, is_seq_before, is_seq_equal, is_seq_in_window, seq_compare, seq_distance,
};
pub use stream::{counts_within, overloaded_shards, shard_index, ShardConfig, ShardedTcpReassembler};
pub use stream_tcp::{
    flow_key_of, FlowKey, ReassemblyError, ReassemblyPolicy, SackBlock, StreamEvent, StreamStats, TcpReassembler,
    TcpSegment, TcpState, TcpStream, TCP_ACK, TCP_FIN, TCP_PSH, TCP_RST, TCP_SYN,
};
pub use worker::{SubmitError, WorkerSelector};
