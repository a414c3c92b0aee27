//! Per-flow TCP stream state and ordered delivery of segment bytes.
use vstd::prelude::*;
use vstd::slice::slice_to_vec;
use crate::decode::{DecodedPacket, TransportProtocol};
use crate::defrag::{older_than, older_than_spec};
use crate::seqnum::{seq_add, seq_advance, seq_dist, seq_distance, seq_space};

verus! {

pub const TCP_FIN: u8 = 0x01;
pub const TCP_SYN: u8 = 0x02;
pub const TCP_RST: u8 = 0x04;
pub const TCP_PSH: u8 = 0x08;
pub const TCP_ACK: u8 = 0x10;

/// Widest span ahead of the delivery point that a buffered segment may reach.
pub const MAX_SEGMENT_SPAN: u32 = 0x4000_0000;
/// Largest number of buffered bytes held for one flow.
pub const MAX_STREAM_BYTES: usize = 10 * 1024 * 1024;

/// Which bytes win when a new segment overlaps buffered ones.
#[derive(Debug, Clone, Copy, PartialEq, Eq, Structural)]
pub enum ReassemblyPolicy {
    First,
    Last,
    Windows,
    Linux,
    Solaris,
    LinuxOld,
}

impl ReassemblyPolicy {
    /// The policy used when none is chosen.
    pub fn default_policy() -> (r: Self)
        ensures
            r == ReassemblyPolicy::Windows,
    {
        ReassemblyPolicy::Windows
    }
}

/// Connection states, as seen by a passive observer.
#[derive(Debug, Clone, Copy, PartialEq, Eq, Structural)]
pub enum TcpState {
    SynSent,
    SynReceived,
    Established,
    FinWait1,
    FinWait2,
    CloseWait,
    Closing,
    LastAck,
    TimeWait,
    Closed,
}

/// A selectively acknowledged range `[start_seq, end_seq)`.
#[derive(Debug, Clone, Copy, PartialEq, Eq, Structural)]
pub struct SackBlock {
    pub start_seq: u32,
    pub end_seq: u32,
}

/// What went wrong in a flow.
#[derive(Debug, Clone, Copy, PartialEq, Eq, Structural)]
pub enum ReassemblyError {
    InvalidSequence(u32),
    GapTooLarge(u32),
    SegmentOverlap { existing: u32, new: u32 },
    InvalidState(TcpState),
}

/// Things that happen to a flow and are counted.
#[derive(Debug, Clone, Copy, PartialEq, Eq, Structural)]
pub enum StreamEvent {
    Retransmission,
    GapDetected,
    NewSegment,
    StreamEstablished,
    StreamClosed,
    SegmentReassembled,
    OutOfOrder,
    Error(ReassemblyError),
}

/// Counters of one flow, or of many added up.
#[derive(Debug, Clone, Copy, PartialEq, Eq, Structural)]
pub struct StreamStats {
    pub packet_count: u64,
    pub byte_count: u64,
    pub last_seen: u64,
    pub gaps_detected: u64,
    pub retransmissions: u64,
    pub out_of_order: u64,
    pub reassembly_errors: u64,
}

/// A counter that stops at its largest value.
pub open spec fn inc64(n: u64) -> u64 {
    if n < u64::MAX {
        (n + 1) as u64
    } else {
        n
    }
}

pub fn incr(n: u64) -> (r: u64)
    ensures
        r == inc64(n),
{
    if n < u64::MAX {
        n + 1
    } else {
        n
    }
}

/// `a + b`, held at the largest value.
pub open spec fn add64(a: u64, b: int) -> u64 {
    if a + b > u64::MAX {
        u64::MAX
    } else {
        (a + b) as u64
    }
}

pub fn add_sat(a: u64, b: u64) -> (r: u64)
    ensures
        r == add64(a, b as int),
{
    if a > u64::MAX - b {
        u64::MAX
    } else {
        a + b
    }
}

impl StreamStats {
    pub fn new(now: u64) -> (r: Self)
        ensures
            r.packet_count == 0,
            r.byte_count == 0,
            r.last_seen == now,
            r.gaps_detected == 0,
            r.retransmissions == 0,
            r.out_of_order == 0,
            r.reassembly_errors == 0,
    {
        StreamStats {
            packet_count: 0,
            byte_count: 0,
            last_seen: now,
            gaps_detected: 0,
            retransmissions: 0,
            out_of_order: 0,
            reassembly_errors: 0,
        }
    }

    /// Adds the counters of `other` into these.
    pub fn accumulate(&mut self, other: &StreamStats)
        ensures
            final(self).packet_count == add64(old(self).packet_count, other.packet_count as int),
            final(self).byte_count == add64(old(self).byte_count, other.byte_count as int),
            final(self).gaps_detected == add64(old(self).gaps_detected, other.gaps_detected as int),
            final(self).retransmissions == add64(old(self).retransmissions, other.retransmissions as int),
            final(self).out_of_order == add64(old(self).out_of_order, other.out_of_order as int),
            final(self).reassembly_errors == add64(old(self).reassembly_errors, other.reassembly_errors as int),
            final(self).last_seen == if other.last_seen > old(self).last_seen {
                other.last_seen
            } else {
                old(self).last_seen
            },
    {
        self.packet_count = add_sat(self.packet_count, other.packet_count);
        self.byte_count = add_sat(self.byte_count, other.byte_count);
        self.gaps_detected = add_sat(self.gaps_detected, other.gaps_detected);
        self.retransmissions = add_sat(self.retransmissions, other.retransmissions);
        self.out_of_order = add_sat(self.out_of_order, other.out_of_order);
        self.reassembly_errors = add_sat(self.reassembly_errors, other.reassembly_errors);
        if other.last_seen > self.last_seen {
            self.last_seen = other.last_seen;
        }
    }
}

// ---------------------------------------------------------------------
// Connection state machine
// ---------------------------------------------------------------------

pub open spec fn has_fin(flags: u8) -> bool {
    flags % 2 == 1
}

pub open spec fn has_syn(flags: u8) -> bool {
    (flags / 2) % 2 == 1
}

pub open spec fn has_rst(flags: u8) -> bool {
    (flags / 4) % 2 == 1
}

pub open spec fn has_ack(flags: u8) -> bool {
    (flags / 16) % 2 == 1
}

/// The state that follows `s` on a packet with `flags`, and whether the
/// packet was unexpected in `s`.
pub open spec fn transition(s: TcpState, flags: u8) -> (TcpState, bool) {
    if has_rst(flags) {
        (TcpState::Closed, false)
    } else {
        match s {
            TcpState::Closed => if has_syn(flags) {
                (TcpState::SynReceived, false)
            } else {
                (s, true)
            },
            TcpState::SynSent => if has_syn(flags) && has_ack(flags) {
                (TcpState::Established, false)
            } else {
                (s, true)
            },
            TcpState::SynReceived => if has_ack(flags) {
                (TcpState::Established, false)
            } else {
                (s, true)
            },
            TcpState::Established => if has_fin(flags) {
                (TcpState::CloseWait, false)
            } else if has_ack(flags) {
                (TcpState::FinWait1, false)
            } else {
                (s, true)
            },
            TcpState::FinWait1 => if has_ack(flags) {
                (TcpState::FinWait2, false)
            } else {
                (s, true)
            },
            TcpState::FinWait2 => if has_fin(flags) {
                (TcpState::Closing, false)
            } else {
                (s, true)
            },
            TcpState::CloseWait => if has_fin(flags) {
                (TcpState::LastAck, false)
            } else {
                (s, true)
            },
            TcpState::Closing => if has_ack(flags) {
                (TcpState::TimeWait, false)
            } else {
                (s, true)
            },
            TcpState::LastAck => if has_ack(flags) {
                (TcpState::Closed, false)
            } else {
                (s, true)
            },
            TcpState::TimeWait => (s, true),
        }
    }
}

/// The state that follows `state` on a packet with `flags`, and whether the
/// packet was unexpected there.
pub fn next_state(state: TcpState, flags: u8) -> (r: (TcpState, bool))
    ensures
        r == transition(state, flags),
{
    let fin = flags % 2 == 1;
    let syn = (flags / 2) % 2 == 1;
    let rst = (flags / 4) % 2 == 1;
    let ack = (flags / 16) % 2 == 1;
    if rst {
        return (TcpState::Closed, false);
    }
    match state {
        TcpState::Closed => if syn {
            (TcpState::SynReceived, false)
        } else {
            (state, true)
        },
        TcpState::SynSent => if syn && ack {
            (TcpState::Established, false)
        } else {
            (state, true)
        },
        TcpState::SynReceived => if ack {
            (TcpState::Established, false)
        } else {
            (state, true)
        },
        TcpState::Established => if fin {
            (TcpState::CloseWait, false)
        } else if ack {
            (TcpState::FinWait1, false)
        } else {
            (state, true)
        },
        TcpState::FinWait1 => if ack {
            (TcpState::FinWait2, false)
        } else {
            (state, true)
        },
        TcpState::FinWait2 => if fin {
            (TcpState::Closing, false)
        } else {
            (state, true)
        },
        TcpState::CloseWait => if fin {
            (TcpState::LastAck, false)
        } else {
            (state, true)
        },
        TcpState::Closing => if ack {
            (TcpState::TimeWait, false)
        } else {
            (state, true)
        },
        TcpState::LastAck => if ack {
            (TcpState::Closed, false)
        } else {
            (state, true)
        },
        TcpState::TimeWait => (state, true),
    }
}

// ---------------------------------------------------------------------
// Segments and flows
// ---------------------------------------------------------------------

/// Identity of one direction of a TCP conversation.
#[derive(Debug, Clone, Copy, PartialEq, Eq, Structural, Hash)]
pub struct FlowKey {
    pub src_ip: u32,
    pub src_port: u16,
    pub dst_ip: u32,
    pub dst_port: u16,
}

impl FlowKey {
    pub fn new(src_ip: u32, src_port: u16, dst_ip: u32, dst_port: u16) -> (r: Self)
        ensures
            r == (FlowKey { src_ip, src_port, dst_ip, dst_port }),
    {
        FlowKey { src_ip, src_port, dst_ip, dst_port }
    }
}

/// Bytes of a flow held until the bytes before them arrive.
#[derive(Debug)]
pub struct TcpSegment {
    pub seq: u32,
    pub data: Vec<u8>,
    pub received_at: u64,
    pub retransmit_count: u32,
    pub last_retransmit: Option<u64>,
}

impl TcpSegment {
    pub fn new(seq: u32, data: Vec<u8>, received_at: u64) -> (r: Self)
        ensures
            r.seq == seq,
            r.data == data,
            r.received_at == received_at,
            r.retransmit_count == 0,
            r.last_retransmit is None,
    {
        TcpSegment { seq, data, received_at, retransmit_count: 0, last_retransmit: None }
    }
}

/// How far past the delivery point `next` a segment starts.
pub open spec fn rel_start(s: TcpSegment, next: u32) -> int {
    seq_dist(s.seq, next)
}

/// How far past the delivery point `next` a segment ends.
pub open spec fn rel_end(s: TcpSegment, next: u32) -> int {
    seq_dist(s.seq, next) + s.data@.len()
}

/// Buffered segments lie past the delivery point, within the span, are not
/// empty, and share no byte.
pub open spec fn segs_wf(segs: Seq<TcpSegment>, next: u32) -> bool {
    &&& forall|i: int|
        0 <= i < segs.len() ==> 0 < rel_start(#[trigger] segs[i], next) && rel_end(segs[i], next)
            <= MAX_SEGMENT_SPAN && segs[i].data@.len() > 0
    &&& forall|i: int, j: int|
        0 <= i < j < segs.len() ==> rel_end(#[trigger] segs[i], next) <= rel_start(#[trigger] segs[j], next)
            || rel_end(segs[j], next) <= rel_start(segs[i], next)
}

/// Limits under which a flow buffers segments.
#[derive(Debug, Clone, Copy, PartialEq, Eq, Structural)]
pub struct StreamLimits {
    pub max_gap: u32,
    pub max_segments: usize,
    pub max_bytes: usize,
    pub policy: ReassemblyPolicy,
}

/// One direction of a TCP conversation: its connection state, where
/// delivery stands, what is buffered, what has been delivered, and its
/// counters.
#[derive(Debug)]
pub struct TcpStream {
    pub key: FlowKey,
    pub state: TcpState,
    pub isn: u32,
    pub base_seq: u32,
    pub next_seq: u32,
    pub end_seq: u32,
    pub last_ack: u32,
    pub window_size: u32,
    pub mss: u16,
    pub fin_seq: Option<u32>,
    pub segments: Vec<TcpSegment>,
    pub reassembled_data: Vec<u8>,
    pub sack_blocks: Vec<SackBlock>,
    pub stats: StreamStats,
    pub last_seen: u64,
    pub established: bool,
    pub synced: bool,
}

/// The bytes that a call handed back.
pub open spec fn out_bytes(r: Option<Vec<u8>>) -> Seq<u8> {
    match r {
        Some(v) => v@,
        None => Seq::empty(),
    }
}

/// The bytes `[seq, seq + len)` all lie before the delivery point.
pub open spec fn fully_delivered(s: TcpStream, seq: u32, len: int) -> bool {
    &&& s.synced
    &&& seq_dist(s.next_seq, seq) > 0
    &&& seq_dist(s.next_seq, seq) <= 0x8000_0000
    &&& seq_dist(s.next_seq, seq) >= len
}

/// A segment with these bytes at `seq` is buffered.
pub open spec fn buffered_copy(s: TcpStream, seq: u32, data: Seq<u8>) -> bool {
    exists|i: int| 0 <= i < s.segments@.len() && (#[trigger] s.segments@[i]).seq == seq && s.segments@[i].data@ == data
}

/// The flow has already taken these bytes at `seq`: delivered or buffered.
pub open spec fn covered(s: TcpStream, seq: u32, data: Seq<u8>) -> bool {
    &&& data.len() > 0
    &&& s.synced
    &&& (fully_delivered(s, seq, data.len() as int) || buffered_copy(s, seq, data))
}

/// What a call of `process_segment` with `data` at `seq` does to the flow
/// `s`, giving `t` and the result `r`.
pub open spec fn data_step(
    s: TcpStream,
    seq: u32,
    data: Seq<u8>,
    limits: StreamLimits,
    t: TcpStream,
    r: Option<Vec<u8>>,
) -> bool {
    &&& t.reassembled_data@ == s.reassembled_data@ + out_bytes(r)
    &&& (r is Some ==> r->Some_0@.len() > 0 && covered(t, seq, data))
    &&& t.stats.reassembly_errors >= s.stats.reassembly_errors
    &&& t.key == s.key
    &&& t.state == s.state
    &&& (s.synced ==> t.synced)
    &&& (!s.synced && 0 < data.len() <= MAX_SEGMENT_SPAN ==> {
        &&& r is Some
        &&& r->Some_0@ == data
        &&& t.synced
        &&& t.next_seq == seq_add(seq, data.len() as int)
        &&& t.segments@.len() == 0
    })
    &&& (s.synced && seq == s.next_seq && s.segments@.len() == 0 && 0 < data.len() <= MAX_SEGMENT_SPAN ==> {
        &&& r is Some
        &&& r->Some_0@ == data
        &&& t.next_seq == seq_add(s.next_seq, data.len() as int)
        &&& t.segments@.len() == 0
    })
    &&& (covered(s, seq, data) ==> {
        &&& r is None
        &&& t.stats.retransmissions == inc64(s.stats.retransmissions)
        &&& t.next_seq == s.next_seq
        &&& t.segments@.len() == s.segments@.len()
    })
    &&& (s.synced && seq == s.next_seq && s.segments@.len() == 1 && rel_start(s.segments@[0], s.next_seq) == data.len()
        && 0 < data.len() <= MAX_SEGMENT_SPAN ==> {
        &&& r is Some
        &&& r->Some_0@ == data + s.segments@[0].data@
        &&& t.segments@.len() == 0
    })
    &&& (s.synced && seq == s.next_seq && 0 < data.len() <= MAX_SEGMENT_SPAN ==> r is Some && chain_delivered(
        s,
        data,
        t,
        r->Some_0@,
    ))
    &&& (s.synced && 0 < seq_dist(s.next_seq, seq) <= 0x8000_0000 && seq_dist(s.next_seq, seq) < data.len()
        <= MAX_SEGMENT_SPAN ==> r is Some && chain_delivered(
        s,
        data.subrange(seq_dist(s.next_seq, seq), data.len() as int),
        t,
        r->Some_0@,
    ))
    &&& (s.synced && seq_ahead(seq, s.next_seq) ==> {
        &&& r is None
        &&& t.next_seq == s.next_seq
    })
    &&& (s.synced && seq_ahead(seq, s.next_seq) && !covered(s, seq, data) && 0 < data.len()
        && seq_dist(seq, s.next_seq) > limits.max_gap ==> {
        &&& t.stats.gaps_detected == inc64(s.stats.gaps_detected)
        &&& t.segments == s.segments
    })
    &&& (s.synced && seq_ahead(seq, s.next_seq) && !covered(s, seq, data) && fits_ahead(s, seq, data, limits)
        ==> {
        &&& t.segments@.len() == s.segments@.len() + 1
        &&& t.segments@.drop_last() == s.segments@
        &&& t.segments@.last().seq == seq
        &&& t.segments@.last().data@ == data
        &&& t.stats.out_of_order == inc64(s.stats.out_of_order)
    })
}

/// `seq` lies strictly ahead of `next`, less than half the number space away.
pub open spec fn seq_ahead(seq: u32, next: u32) -> bool {
    0 < seq_dist(seq, next) < 0x8000_0000
}

/// Bytes ahead of the delivery point that the flow buffers as they are:
/// within the gap, the span and the window, meeting no buffered segment,
/// and with room under both limits.
pub open spec fn fits_ahead(s: TcpStream, seq: u32, data: Seq<u8>, limits: StreamLimits) -> bool {
    let a = seq_dist(seq, s.next_seq);
    &&& 0 < data.len() <= MAX_SEGMENT_SPAN
    &&& a <= limits.max_gap
    &&& a + data.len() <= MAX_SEGMENT_SPAN
    &&& (s.window_size == 0 || a + data.len() <= s.window_size)
    &&& forall|i: int|
        0 <= i < s.segments@.len() ==> !ranges_meet(
            rel_start(#[trigger] s.segments@[i], s.next_seq),
            rel_end(s.segments@[i], s.next_seq),
            a,
            a + data.len(),
        )
    &&& s.segments@.len() < limits.max_segments
    &&& sum_lens(s.segments@) + data.len() <= limits.max_bytes
}

proof fn lemma_dist_shift(x: u32, n0: u32, k: int)
    requires
        0 <= k <= seq_dist(x, n0),
    ensures
        seq_dist(x, seq_add(n0, k)) == seq_dist(x, n0) - k,
{
    assert(seq_dist(x, n0) < seq_space());
}

proof fn lemma_dist_back(n0: u32, seq: u32, k: int)
    requires
        0 <= k,
        seq_dist(n0, seq) + k < seq_space(),
    ensures
        seq_dist(seq_add(n0, k), seq) == seq_dist(n0, seq) + k,
{
}

/// The two byte sequences are equal.
pub fn bytes_equal(a: &[u8], b: &[u8]) -> (r: bool)
    ensures
        r == (a@ == b@),
{
    if a.len() != b.len() {
        return false;
    }
    let mut i: usize = 0;
    while i < a.len()
        invariant
            a@.len() == b@.len(),
            0 <= i <= a@.len(),
            forall|k: int| 0 <= k < i ==> a@[k] == b@[k],
        decreases a@.len() - i,
    {
        if a[i] != b[i] {
            return false;
        }
        i += 1;
    }
    assert(a@ =~= b@);
    true
}

/// The overlap policy keeps the buffered segment `[a_old, b_old)` against
/// the new segment `[a_new, b_new)`.
pub open spec fn keeps_existing(policy: ReassemblyPolicy, a_old: int, b_old: int, a_new: int, b_new: int) -> bool {
    match policy {
        ReassemblyPolicy::First => true,
        ReassemblyPolicy::Last => false,
        ReassemblyPolicy::Windows => !(a_new < a_old),
        ReassemblyPolicy::Linux => !(a_new < a_old || (a_new == a_old && b_new > b_old)),
        ReassemblyPolicy::Solaris => b_old > b_new || (a_old < a_new && b_old >= b_new),
        ReassemblyPolicy::LinuxOld => a_old < a_new || (a_old == a_new && b_old > b_new),
    }
}

pub fn keeps_existing_exec(policy: ReassemblyPolicy, a_old: u64, b_old: u64, a_new: u64, b_new: u64) -> (r: bool)
    ensures
        r == keeps_existing(policy, a_old as int, b_old as int, a_new as int, b_new as int),
{
    match policy {
        ReassemblyPolicy::First => true,
        ReassemblyPolicy::Last => false,
        ReassemblyPolicy::Windows => !(a_new < a_old),
        ReassemblyPolicy::Linux => !(a_new < a_old || (a_new == a_old && b_new > b_old)),
        ReassemblyPolicy::Solaris => b_old > b_new || (a_old < a_new && b_old >= b_new),
        ReassemblyPolicy::LinuxOld => a_old < a_new || (a_old == a_new && b_old > b_new),
    }
}

/// Two ranges start together or share a byte.
pub open spec fn ranges_meet(a1: int, b1: int, a2: int, b2: int) -> bool {
    a1 == a2 || (a1 < b2 && a2 < b1)
}

impl TcpStream {
    pub open spec fn wf(&self) -> bool {
        &&& segs_wf(self.segments@, self.next_seq)
        &&& (!self.synced ==> self.segments@.len() == 0)
    }

    pub fn new(key: FlowKey, now: u64) -> (r: Self)
        ensures
            r.wf(),
            r.key == key,
            r.state == TcpState::Closed,
            !r.synced,
            !r.established,
            r.segments@.len() == 0,
            r.reassembled_data@.len() == 0,
            r.last_seen == now,
            r.stats == StreamStats::new_spec(now),
    {
        TcpStream {
            key,
            state: TcpState::Closed,
            isn: 0,
            base_seq: 0,
            next_seq: 0,
            end_seq: 0,
            last_ack: 0,
            window_size: 65535,
            mss: 1460,
            fin_seq: None,
            segments: Vec::new(),
            reassembled_data: Vec::new(),
            sack_blocks: Vec::new(),
            stats: StreamStats::new(now),
            last_seen: now,
            established: false,
            synced: false,
        }
    }

    pub open spec fn key_stats(&self) -> (FlowKey, StreamStats) {
        (self.key, self.stats)
    }

    pub fn is_established(&self) -> (r: bool)
        ensures
            r == self.established,
    {
        self.established
    }

    pub fn get_base_seq(&self) -> (r: u32)
        ensures
            r == self.base_seq,
    {
        self.base_seq
    }

    pub fn get_end_seq(&self) -> (r: u32)
        ensures
            r == self.end_seq,
    {
        self.end_seq
    }

    /// The index of a buffered segment with exactly these bytes at `seq`.
    pub fn find_duplicate(&self, seq: u32, data: &[u8]) -> (r: Option<usize>)
        ensures
            r is Some ==> r->Some_0 < self.segments@.len() && self.segments@[r->Some_0 as int].seq == seq
                && self.segments@[r->Some_0 as int].data@ == data@,
            r is None ==> !buffered_copy(*self, seq, data@),
    {
        let mut i: usize = 0;
        while i < self.segments.len()
            invariant
                0 <= i <= self.segments@.len(),
                forall|k: int|
                    0 <= k < i ==> !((#[trigger] self.segments@[k]).seq == seq && self.segments@[k].data@ == data@),
            decreases self.segments@.len() - i,
        {
            let s = &self.segments[i];
            if s.seq == seq && bytes_equal(s.data.as_slice(), data) {
                return Some(i);
            }
            i += 1;
        }
        None
    }
}

/// Every byte of `out` from `lo` up to `hi` is the byte that some segment
/// of `segs` holds at that position past `n0`.
pub open spec fn filled(segs: Seq<TcpSegment>, n0: u32, out: Seq<u8>, lo: int, hi: int) -> bool {
    forall|p: int| lo <= p < hi ==> #[trigger] byte_from_segment(segs, n0, out, p)
}

/// Byte `p` of `out` is the byte that some segment holds there.
pub open spec fn byte_from_segment(segs: Seq<TcpSegment>, n0: u32, out: Seq<u8>, p: int) -> bool {
    exists|i: int|
        0 <= i < segs.len() && rel_start(#[trigger] segs[i], n0) <= p < rel_end(segs[i], n0) && out[p]
            == segs[i].data@[p - rel_start(segs[i], n0)]
}

proof fn lemma_filled_extend(segs: Seq<TcpSegment>, n0: u32, mid: Seq<u8>, out: Seq<u8>, lo: int, k: int, w: int)
    requires
        filled(segs, n0, mid, lo, k),
        0 <= lo,
        mid.len() == k,
        0 <= w < segs.len(),
        rel_start(segs[w], n0) <= k < rel_end(segs[w], n0),
        out == mid + segs[w].data@.subrange(k - rel_start(segs[w], n0), segs[w].data@.len() as int),
    ensures
        out.len() == rel_end(segs[w], n0),
        filled(segs, n0, out, lo, out.len() as int),
{
    let a = rel_start(segs[w], n0);
    assert forall|p: int| lo <= p < (out.len() as int) implies #[trigger] byte_from_segment(segs, n0, out, p) by {
        if p < k {
            assert(out[p] == mid[p]);
            assert(byte_from_segment(segs, n0, mid, p));
            let i = choose|i: int|
                0 <= i < segs.len() && rel_start(#[trigger] segs[i], n0) <= p < rel_end(segs[i], n0) && mid[p]
                    == segs[i].data@[p - rel_start(segs[i], n0)];
            assert(out[p] == segs[i].data@[p - rel_start(segs[i], n0)]);
        } else {
            assert(out[p] == segs[w].data@[p - a]);
        }
    }
    assert(out.len() == rel_end(segs[w], n0));
}

/// Delivering `first` at the delivery point of `s` gave `r` and left `t`:
/// `r` is `first` followed by the bytes of the buffered segments that the
/// delivered bytes reach, up to the first hole; each segment reached is
/// gone, the others stay, and the delivery point moves past `r`.
pub open spec fn chain_delivered(s: TcpStream, first: Seq<u8>, t: TcpStream, r: Seq<u8>) -> bool {
    let n0 = s.next_seq;
    &&& first.len() <= r.len()
    &&& r.subrange(0, first.len() as int) == first
    &&& t.next_seq == seq_add(n0, r.len() as int)
    &&& filled(s.segments@, n0, r, first.len() as int, r.len() as int)
    &&& forall|i: int|
        0 <= i < s.segments@.len() && rel_start(#[trigger] s.segments@[i], n0) <= r.len() ==> rel_end(
            s.segments@[i],
            n0,
        ) <= r.len()
    &&& forall|g: TcpSegment| t.segments@.contains(g) <==> (s.segments@.contains(g) && rel_start(g, n0) > r.len())
}

/// Total length of the segments' bytes.
pub open spec fn sum_lens(segs: Seq<TcpSegment>) -> int
    decreases segs.len(),
{
    if segs.len() == 0 {
        0
    } else {
        sum_lens(segs.drop_last()) + segs.last().data@.len()
    }
}

/// Appends the bytes of `src` to `dst`.
pub fn append_bytes(dst: &mut Vec<u8>, src: &[u8])
    ensures
        final(dst)@ == old(dst)@ + src@,
{
    let mut i: usize = 0;
    while i < src.len()
        invariant
            0 <= i <= src@.len(),
            dst@ == old(dst)@ + src@.take(i as int),
        decreases src@.len() - i,
    {
        proof {
            assert(old(dst)@ + src@.take(i + 1) =~= (old(dst)@ + src@.take(i as int)).push(src@[i as int]));
        }
        dst.push(src[i]);
        i += 1;
    }
    assert(src@.take(i as int) =~= src@);
}

impl TcpStream {
    /// The number of buffered bytes, held at the largest `usize`.
    pub fn buffered_bytes(&self) -> (r: usize)
        ensures
            r == if sum_lens(self.segments@) > usize::MAX {
                usize::MAX as int
            } else {
                sum_lens(self.segments@)
            },
    {
        let mut total: usize = 0;
        let mut i: usize = 0;
        while i < self.segments.len()
            invariant
                0 <= i <= self.segments@.len(),
                total == if sum_lens(self.segments@.take(i as int)) > usize::MAX {
                    usize::MAX as int
                } else {
                    sum_lens(self.segments@.take(i as int))
                },
            decreases self.segments@.len() - i,
        {
            proof {
                assert(self.segments@.take(i + 1).drop_last() =~= self.segments@.take(i as int));
                assert(sum_lens(self.segments@.take(i as int)) >= 0) by {
                    lemma_sum_lens_nonneg(self.segments@.take(i as int));
                }
            }
            let l = self.segments[i].data.len();
            total = if total > usize::MAX - l {
                usize::MAX
            } else {
                total + l
            };
            i += 1;
        }
        assert(self.segments@.take(i as int) =~= self.segments@);
        total
    }

    /// The index of a buffered segment that starts no later than `k` bytes
    /// past `n0`.
    fn find_reachable(&self, n0: u32, k: usize) -> (r: Option<usize>)
        ensures
            r is Some ==> r->Some_0 < self.segments@.len() && rel_start(self.segments@[r->Some_0 as int], n0) <= k,
            r is None ==> forall|i: int| 0 <= i < self.segments@.len() ==> rel_start(#[trigger] self.segments@[i], n0) > k,
    {
        let mut i: usize = 0;
        while i < self.segments.len()
            invariant
                0 <= i <= self.segments@.len(),
                forall|j: int| 0 <= j < i ==> rel_start(#[trigger] self.segments@[j], n0) > k,
            decreases self.segments@.len() - i,
        {
            if seq_distance(self.segments[i].seq, n0) as usize <= k {
                return Some(i);
            }
            i += 1;
        }
        None
    }

    /// Delivers `first`, which starts at the delivery point, and then every
    /// buffered segment that the delivered bytes reach, in order; a segment
    /// that starts inside what was delivered gives only its remaining bytes.
    fn deliver(&mut self, first: Vec<u8>) -> (r: Vec<u8>)
        requires
            old(self).wf(),
            old(self).synced,
            0 < first@.len() <= MAX_SEGMENT_SPAN,
        ensures
            final(self).wf(),
            final(self).synced,
            first@.len() <= r@.len() <= MAX_SEGMENT_SPAN,
            r@.subrange(0, first@.len() as int) == first@,
            final(self).next_seq == seq_add(old(self).next_seq, r@.len() as int),
            final(self).reassembled_data@ == old(self).reassembled_data@ + r@,
            old(self).segments@.len() == 0 ==> r@ == first@ && final(self).segments@.len() == 0,
            old(self).segments@.len() == 1 && rel_start(old(self).segments@[0], old(self).next_seq) == first@.len() ==> r@
                == first@ + old(self).segments@[0].data@ && final(self).segments@.len() == 0,
            final(self).segments@.len() <= old(self).segments@.len(),
            chain_delivered(*old(self), first@, *final(self), r@),
            final(self).key == old(self).key,
            final(self).state == old(self).state,
            final(self).stats.retransmissions == old(self).stats.retransmissions,
            final(self).stats.reassembly_errors == old(self).stats.reassembly_errors,
    {
        let n0 = self.next_seq;
        let mut out = first;
        let ghost first_v = out@;
        let ghost orig = self.segments@;
        loop
            invariant
                self.synced,
                self.next_seq == n0,
                segs_wf(self.segments@, n0),
                first_v.len() <= out@.len() <= MAX_SEGMENT_SPAN,
                out@.subrange(0, first_v.len() as int) == first_v,
                self.segments@.len() <= old(self).segments@.len(),
                old(self).segments@.len() == 0 ==> out@ == first_v && self.segments@.len() == 0,
                old(self).segments@.len() == 1 && rel_start(old(self).segments@[0], n0) == first_v.len() ==> (
                (self.segments@ == old(self).segments@ && out@ == first_v) || (self.segments@.len() == 0 && out@
                    == first_v + old(self).segments@[0].data@)),
                self.key == old(self).key,
                self.state == old(self).state,
                self.stats == old(self).stats,
                self.reassembled_data == old(self).reassembled_data,
                orig == old(self).segments@,
                segs_wf(orig, n0),
                filled(orig, n0, out@, first_v.len() as int, out@.len() as int),
                forall|i: int|
                    0 <= i < orig.len() ==> self.segments@.contains(#[trigger] orig[i]) || rel_end(orig[i], n0) <= out@.len(),
                forall|j: int| 0 <= j < self.segments@.len() ==> orig.contains(#[trigger] self.segments@[j]),
            ensures
                forall|i: int| 0 <= i < self.segments@.len() ==> rel_start(#[trigger] self.segments@[i], n0) > out@.len(),
            decreases self.segments@.len(),
        {
            let k = out.len();
            match self.find_reachable(n0, k) {
                None => {
                    break ;
                },
                Some(j) => {
                    let ghost before = self.segments@;
                    let seg = self.segments.remove(j);
                    proof {
                        assert forall|a: int| 0 <= a < self.segments@.len() implies #[trigger] self.segments@[a] == (
                        if a < j {
                            before[a]
                        } else {
                            before[a + 1]
                        }) by {}
                        assert forall|a: int, b: int|
                            0 <= a < b < self.segments@.len() implies rel_end(#[trigger] self.segments@[a], n0)
                            <= rel_start(#[trigger] self.segments@[b], n0) || rel_end(self.segments@[b], n0)
                            <= rel_start(self.segments@[a], n0) by {
                            let a2 = if a < j { a } else { a + 1 };
                            let b2 = if b < j { b } else { b + 1 };
                            assert(self.segments@[a] == before[a2]);
                            assert(self.segments@[b] == before[b2]);
                        }
                    }
                    let a = seq_distance(seg.seq, n0) as usize;
                    let b = a + seg.data.len();
                    if b > k {
                        let ghost mid = out@;
                        let mut t = k - a;
                        while t < seg.data.len()
                            invariant
                                a <= k,
                                k - a <= t <= seg.data@.len(),
                                b == a + seg.data@.len(),
                                b <= MAX_SEGMENT_SPAN,
                                mid.len() == k,
                                out@.len() == k + (t - (k - a)),
                                out@.subrange(0, k as int) == mid,
                                out@ == mid + seg.data@.subrange(k - a, t as int),
                            decreases seg.data@.len() - t,
                        {
                            proof {
                                assert(out@.push(seg.data@[t as int]).subrange(0, k as int) =~= out@.subrange(0, k as int));
                                assert(mid + seg.data@.subrange(k - a, t + 1) =~= (mid + seg.data@.subrange(k - a, t as int)).push(seg.data@[t as int]));
                            }
                            out.push(seg.data[t]);
                            t += 1;
                        }
                        proof {
                            assert(out@.subrange(0, first_v.len() as int) =~= mid.subrange(0, first_v.len() as int));
                            if k == a {
                                assert(seg.data@.subrange(0, seg.data@.len() as int) =~= seg.data@);
                            }
                            assert(orig.contains(seg)) by {
                                assert(before[j as int] == seg);
                            }
                            let w = choose|w: int| 0 <= w < orig.len() && orig[w] == seg;
                            lemma_filled_extend(orig, n0, mid, out@, first_v.len() as int, k as int, w);
                            assert(filled(orig, n0, out@, first_v.len() as int, out@.len() as int));
                        }
                    }
                    proof {
                        assert(before[j as int] == seg);
                        assert forall|i: int|
                            0 <= i < orig.len() implies self.segments@.contains(#[trigger] orig[i]) || rel_end(orig[i], n0)
                            <= out@.len() by {
                            if orig[i] != seg && before.contains(orig[i]) {
                                let m = choose|m: int| 0 <= m < before.len() && before[m] == orig[i];
                                assert(m != j);
                                let m2 = if m < j { m } else { m - 1 };
                                assert(self.segments@[m2] == orig[i]);
                            }
                        }
                        assert forall|x: int| 0 <= x < self.segments@.len() implies orig.contains(#[trigger] self.segments@[x]) by {
                            let x2 = if x < j { x } else { x + 1 };
                            assert(self.segments@[x] == before[x2]);
                            assert(orig.contains(before[x2]));
                        }
                    }
                },
            }
        }
        let k = out.len();
        let ghost segs = self.segments@;
        self.next_seq = seq_advance(n0, k as u32);
        proof {
            let nn = self.next_seq;
            assert forall|i: int| 0 <= i < segs.len() implies #[trigger] rel_start(segs[i], nn) == rel_start(segs[i], n0) - k by {
                lemma_dist_shift(segs[i].seq, n0, k as int);
            }
            assert forall|i: int| 0 <= i < segs.len() implies 0 < rel_start(#[trigger] segs[i], nn) && rel_end(segs[i], nn)
                <= MAX_SEGMENT_SPAN && segs[i].data@.len() > 0 by {
                assert(rel_start(segs[i], nn) == rel_start(segs[i], n0) - k);
            }
            assert forall|i: int, j: int|
                0 <= i < j < segs.len() implies rel_end(#[trigger] segs[i], nn) <= rel_start(#[trigger] segs[j], nn)
                || rel_end(segs[j], nn) <= rel_start(segs[i], nn) by {
                assert(rel_start(segs[i], nn) == rel_start(segs[i], n0) - k);
                assert(rel_start(segs[j], nn) == rel_start(segs[j], n0) - k);
            }
            assert forall|i: int|
                0 <= i < orig.len() && rel_start(#[trigger] orig[i], n0) <= k implies rel_end(orig[i], n0) <= k by {
                if segs.contains(orig[i]) {
                    let m = choose|m: int| 0 <= m < segs.len() && segs[m] == orig[i];
                    assert(rel_start(segs[m], n0) > k);
                }
            }
            assert forall|g: TcpSegment| segs.contains(g) <==> (orig.contains(g) && rel_start(g, n0) > k) by {
                if segs.contains(g) {
                    let m = choose|m: int| 0 <= m < segs.len() && segs[m] == g;
                    assert(orig.contains(segs[m]));
                    assert(rel_start(segs[m], n0) > k);
                }
                if orig.contains(g) && rel_start(g, n0) > k {
                    let m = choose|m: int| 0 <= m < orig.len() && orig[m] == g;
                    assert(orig[m].data@.len() > 0);
                    assert(segs.contains(orig[m]) || rel_end(orig[m], n0) <= k);
                }
            }
        }
        append_bytes(&mut self.reassembled_data, out.as_slice());
        self.stats.byte_count = add_sat(self.stats.byte_count, k as u64);
        out
    }
}

/// Segments that do not meet `[a, b)` past `next`.
pub open spec fn outside_range(next: u32, a: int, b: int) -> spec_fn(TcpSegment) -> bool {
    |g: TcpSegment| !ranges_meet(rel_start(g, next), rel_end(g, next), a, b)
}

/// The overlap policy lets the new range `[a, b)` in against every buffered
/// segment it meets.
pub open spec fn segment_accepted(policy: ReassemblyPolicy, segs: Seq<TcpSegment>, next: u32, a: int, b: int) -> bool {
    forall|i: int|
        0 <= i < segs.len() && ranges_meet(rel_start(#[trigger] segs[i], next), rel_end(segs[i], next), a, b)
            ==> !keeps_existing(policy, rel_start(segs[i], next), rel_end(segs[i], next), a, b)
}

impl TcpStream {
    /// The overlap policy lets `[a, a + len)` past the delivery point in.
    pub fn accepts_segment(&self, a: u32, len: usize, policy: ReassemblyPolicy) -> (r: bool)
        requires
            self.wf(),
            a as int + len <= MAX_SEGMENT_SPAN,
        ensures
            r == segment_accepted(policy, self.segments@, self.next_seq, a as int, a + len),
    {
        let b = a as u64 + len as u64;
        let mut i: usize = 0;
        while i < self.segments.len()
            invariant
                0 <= i <= self.segments@.len(),
                self.wf(),
                b == a + len,
                forall|k: int|
                    0 <= k < i && ranges_meet(
                        rel_start(#[trigger] self.segments@[k], self.next_seq),
                        rel_end(self.segments@[k], self.next_seq),
                        a as int,
                        b as int,
                    ) ==> !keeps_existing(
                        policy,
                        rel_start(self.segments@[k], self.next_seq),
                        rel_end(self.segments@[k], self.next_seq),
                        a as int,
                        b as int,
                    ),
            decreases self.segments@.len() - i,
        {
            let s = &self.segments[i];
            let sa = seq_distance(s.seq, self.next_seq) as u64;
            let sb = sa + s.data.len() as u64;
            if (sa == a as u64 || (sa < b && (a as u64) < sb)) && keeps_existing_exec(policy, sa, sb, a as u64, b) {
                return false;
            }
            i += 1;
        }
        true
    }

    /// Drops every buffered segment that meets `[a, b)`.
    pub fn remove_overlapping(&mut self, a: u32, b: u64)
        requires
            old(self).wf(),
        ensures
            final(self).wf(),
            final(self).segments@ == old(self).segments@.filter(outside_range(old(self).next_seq, a as int, b as int)),
            forall|i: int|
                0 <= i < final(self).segments@.len() ==> !ranges_meet(
                    rel_start(#[trigger] final(self).segments@[i], final(self).next_seq),
                    rel_end(final(self).segments@[i], final(self).next_seq),
                    a as int,
                    b as int,
                ),
            final(self).next_seq == old(self).next_seq,
            final(self).synced == old(self).synced,
            final(self).key == old(self).key,
            final(self).state == old(self).state,
            final(self).stats == old(self).stats,
            final(self).reassembled_data == old(self).reassembled_data,
            final(self).window_size == old(self).window_size,
    {
        let next = self.next_seq;
        let mut rest: Vec<TcpSegment> = Vec::new();
        std::mem::swap(&mut rest, &mut self.segments);
        let ghost orig = rest@;
        let n = rest.len();
        let mut kept: Vec<TcpSegment> = Vec::new();
        let mut i: usize = 0;
        while i < n
            invariant
                0 <= i <= n,
                n == orig.len(),
                segs_wf(orig, next),
                rest@ == orig.subrange(i as int, n as int),
                kept@ == orig.take(i as int).filter(outside_range(next, a as int, b as int)),
                segs_wf(kept@, next),
                forall|k: int| 0 <= k < kept@.len() ==> !ranges_meet(rel_start(#[trigger] kept@[k], next), rel_end(kept@[k], next), a as int, b as int),
                forall|k: int| 0 <= k < kept@.len() ==> exists|j: int| 0 <= j < i && #[trigger] kept@[k] == orig[j],
            decreases n - i,
        {
            let g = rest.remove(0);
            proof {
                assert(g == orig[i as int]);
                assert(orig.subrange(i as int, n as int).remove(0) =~= orig.subrange(i + 1, n as int));
                assert(orig.take(i + 1) =~= orig.take(i as int).push(g));
                crate::defrag::lemma_filter_push(orig.take(i as int), g, outside_range(next, a as int, b as int));
            }
            let ga = seq_distance(g.seq, next) as u64;
            let gb = ga + g.data.len() as u64;
            assert(outside_range(next, a as int, b as int)(g) == !(ga == a as u64 || (ga < b && (a as u64) < gb)));
            if !(ga == a as u64 || (ga < b && (a as u64) < gb)) {
                let ghost before = kept@;
                kept.push(g);
                proof {
                    assert forall|k: int| 0 <= k < kept@.len() implies exists|j: int| 0 <= j < i + 1 && #[trigger] kept@[k] == orig[j] by {
                        if k < before.len() {
                            assert(kept@[k] == before[k]);
                        } else {
                            assert(kept@[k] == orig[i as int]);
                        }
                    }
                    assert forall|x: int, y: int|
                        0 <= x < y < kept@.len() implies rel_end(#[trigger] kept@[x], next) <= rel_start(#[trigger] kept@[y], next)
                        || rel_end(kept@[y], next) <= rel_start(kept@[x], next) by {
                        if y == before.len() {
                            let jx = choose|j: int| 0 <= j < i && #[trigger] before[x] == orig[j];
                            assert(kept@[x] == orig[jx]);
                            assert(kept@[y] == orig[i as int]);
                        }
                    }
                }
            }
            i += 1;
        }
        proof {
            assert(orig.take(n as int) =~= orig);
        }
        self.segments = kept;
    }

    /// Evicts the oldest buffered segments until a segment of `len` bytes
    /// fits the limits.
    pub fn make_room(&mut self, len: usize, limits: &StreamLimits)
        requires
            old(self).wf(),
        ensures
            final(self).wf(),
            exists|d: int| 0 <= d <= old(self).segments@.len() && final(self).segments@ == old(self).segments@.subrange(d, old(self).segments@.len() as int),
            old(self).segments@.len() < limits.max_segments && sum_lens(old(self).segments@) + len <= limits.max_bytes
                ==> final(self).segments == old(self).segments,
            final(self).next_seq == old(self).next_seq,
            final(self).synced == old(self).synced,
            final(self).key == old(self).key,
            final(self).state == old(self).state,
            final(self).stats == old(self).stats,
            final(self).reassembled_data == old(self).reassembled_data,
            final(self).window_size == old(self).window_size,
    {
        let ghost orig = self.segments@;
        let ghost mut d: int = 0;
        let total = self.buffered_bytes();
        if self.segments.len() < limits.max_segments && total <= limits.max_bytes && len <= limits.max_bytes - total {
            assert(self.segments@.subrange(0, self.segments@.len() as int) =~= self.segments@);
            return;
        }
        while self.segments.len() > 0 && (self.segments.len() >= limits.max_segments
            || self.buffered_bytes() > limits.max_bytes || len > limits.max_bytes - self.buffered_bytes())
            invariant
                self.wf(),
                0 <= d <= orig.len(),
                self.segments@ == orig.subrange(d, orig.len() as int),
                self.next_seq == old(self).next_seq,
                self.synced == old(self).synced,
                self.key == old(self).key,
                self.state == old(self).state,
                self.stats == old(self).stats,
                self.reassembled_data == old(self).reassembled_data,
                self.window_size == old(self).window_size,
            decreases self.segments@.len(),
        {
            let ghost before = self.segments@;
            self.segments.remove(0);
            proof {
                assert(self.segments@ =~= orig.subrange(d + 1, orig.len() as int));
                assert forall|k: int| 0 <= k < self.segments@.len() implies #[trigger] self.segments@[k] == before[k + 1] by {}
                assert forall|x: int, y: int|
                    0 <= x < y < self.segments@.len() implies rel_end(#[trigger] self.segments@[x], self.next_seq)
                    <= rel_start(#[trigger] self.segments@[y], self.next_seq) || rel_end(self.segments@[y], self.next_seq)
                    <= rel_start(self.segments@[x], self.next_seq) by {
                    assert(self.segments@[x] == before[x + 1]);
                    assert(self.segments@[y] == before[y + 1]);
                }
                d = d + 1;
            }
        }
    }
}

impl TcpStream {
    /// Counts a segment refused for lying too far ahead.
    fn record_gap(&mut self)
        ensures
            final(self).stats.gaps_detected == inc64(old(self).stats.gaps_detected),
            final(self).stats.reassembly_errors == inc64(old(self).stats.reassembly_errors),
            final(self).stats.retransmissions == old(self).stats.retransmissions,
            final(self).stats.out_of_order == old(self).stats.out_of_order,
            final(self).segments == old(self).segments,
            final(self).next_seq == old(self).next_seq,
            final(self).synced == old(self).synced,
            final(self).key == old(self).key,
            final(self).state == old(self).state,
            final(self).reassembled_data == old(self).reassembled_data,
    {
        self.stats.gaps_detected = incr(self.stats.gaps_detected);
        self.stats.reassembly_errors = incr(self.stats.reassembly_errors);
    }

    /// Takes bytes that start ahead of the delivery point: a duplicate of a
    /// buffered segment counts as a retransmission; bytes too far ahead are
    /// refused and counted; the rest are buffered under the overlap policy
    /// and the limits.
    #[verifier::rlimit(100)]
    fn buffer_ahead(&mut self, seq: u32, data: &[u8], now: u64, limits: &StreamLimits) -> (r: Option<Vec<u8>>)
        requires
            old(self).wf(),
            old(self).synced,
            seq_ahead(seq, old(self).next_seq),
            data@.len() > 0,
        ensures
            final(self).wf(),
            data_step(*old(self), seq, data@, *limits, *final(self), r),
    {
        let next = self.next_seq;
        let len = data.len();
        let ahead = seq_distance(seq, next);
        assert(seq != next);
        assert(!fully_delivered(*old(self), seq, len as int));
        assert(!(seq_dist(next, seq) > 0 && seq_dist(next, seq) <= 0x8000_0000));
        match self.find_duplicate(seq, data) {
            Some(i) => {
                let ghost before = self.segments@;
                let count = self.segments[i].retransmit_count;
                self.segments[i].retransmit_count = if count < u32::MAX {
                    count + 1
                } else {
                    count
                };
                self.segments[i].last_retransmit = Some(now);
                proof {
                    assert forall|k: int| 0 <= k < self.segments@.len() implies #[trigger] self.segments@[k].seq == before[k].seq
                        && self.segments@[k].data@ == before[k].data@ by {}
                    assert forall|x: int, y: int|
                        0 <= x < y < self.segments@.len() implies rel_end(#[trigger] self.segments@[x], next)
                        <= rel_start(#[trigger] self.segments@[y], next) || rel_end(self.segments@[y], next)
                        <= rel_start(self.segments@[x], next) by {
                        assert(rel_start(self.segments@[x], next) == rel_start(before[x], next));
                        assert(rel_start(self.segments@[y], next) == rel_start(before[y], next));
                    }
                }
                self.stats.retransmissions = incr(self.stats.retransmissions);
                return None;
            },
            None => {},
        }
        if len > MAX_SEGMENT_SPAN as usize {
            self.record_gap();
            return None;
        }
        let end = ahead as u64 + len as u64;
        if ahead > limits.max_gap || end > MAX_SEGMENT_SPAN as u64 || (self.window_size > 0 && end
            > self.window_size as u64) {
            self.record_gap();
            return None;
        }
        if !self.accepts_segment(ahead, len, limits.policy) {
            return None;
        }
        let ghost untouched = self.segments@;
        self.remove_overlapping(ahead, end);
        proof {
            if fits_ahead(*old(self), seq, data@, *limits) {
                assert forall|i: int| 0 <= i < untouched.len() implies #[trigger] outside_range(next, ahead as int, end as int)(untouched[i]) by {
                    assert(!ranges_meet(rel_start(untouched[i], next), rel_end(untouched[i], next), ahead as int, end as int));
                }
                lemma_filter_all(untouched, outside_range(next, ahead as int, end as int));
                assert(self.segments@ == untouched);
            }
        }
        self.make_room(len, limits);
        let ghost before = self.segments@;
        self.segments.push(TcpSegment::new(seq, slice_to_vec(data), now));
        proof {
            assert forall|x: int, y: int|
                0 <= x < y < self.segments@.len() implies rel_end(#[trigger] self.segments@[x], next) <= rel_start(
                #[trigger] self.segments@[y],
                next,
            ) || rel_end(self.segments@[y], next) <= rel_start(self.segments@[x], next) by {
                if y == before.len() {
                    assert(self.segments@[x] == before[x]);
                    assert(!ranges_meet(rel_start(before[x], next), rel_end(before[x], next), ahead as int, end as int));
                }
            }
        }
        self.stats.out_of_order = incr(self.stats.out_of_order);
        proof {
            assert(self.segments@.drop_last() =~= before);
        }
        None
    }

    /// Takes the bytes `data` that start at `seq`. The first bytes of a flow
    /// set where delivery starts and come back at once; bytes at the
    /// delivery point come back with every buffered segment they reach;
    /// bytes already delivered or buffered count as a retransmission; bytes
    /// further ahead are buffered under the overlap policy and the limits.
    pub fn process_segment(&mut self, seq: u32, data: &[u8], now: u64, limits: &StreamLimits) -> (r: Option<Vec<u8>>)
        requires
            old(self).wf(),
        ensures
            final(self).wf(),
            data_step(*old(self), seq, data@, *limits, *final(self), r),
    {
        let len = data.len();
        if len == 0 {
            return None;
        }
        if !self.synced {
            if len > MAX_SEGMENT_SPAN as usize {
                self.record_gap();
                return None;
            }
            self.synced = true;
            self.isn = seq;
            self.base_seq = seq;
            self.next_seq = seq;
            let out = self.deliver(slice_to_vec(data));
            proof {
                assert(out@.subrange(0, len as int) =~= out@);
                lemma_dist_back(seq, seq, out@.len() as int);
            }
            self.base_seq = self.next_seq;
            return Some(out);
        }
        let next = self.next_seq;
        if seq == next {
            if len > MAX_SEGMENT_SPAN as usize {
                self.record_gap();
                return None;
            }
            let out = self.deliver(slice_to_vec(data));
            proof {
                if old(self).segments@.len() == 0 {
                    assert(out@.subrange(0, len as int) =~= out@);
                }
                lemma_dist_back(next, seq, out@.len() as int);
            }
            self.base_seq = self.next_seq;
            return Some(out);
        }
        let back = seq_distance(next, seq);
        if back <= 0x8000_0000 {
            if back as usize >= len {
                self.stats.retransmissions = incr(self.stats.retransmissions);
                return None;
            }
            if len > MAX_SEGMENT_SPAN as usize {
                self.record_gap();
                return None;
            }
            let out = self.deliver(slice_to_vec(&data[back as usize..len]));
            proof {
                lemma_dist_back(next, seq, out@.len() as int);
            }
            self.base_seq = self.next_seq;
            return Some(out);
        }
        proof {
            assert(seq_dist(seq, next) == seq_space() - back);
        }
        self.buffer_ahead(seq, data, now, limits)
    }
}

/// The flow `s` once the flags of a packet have been applied: the
/// connection state and its error count, the packet counter, the last
/// acknowledgement and window (on ACK), the FIN's number (on FIN), and, on
/// a SYN that opens the flow, the delivery point just past the SYN.
pub open spec fn after_flags(s: TcpStream, seq: u32, ack: u32, flags: u8, window: u16, now: u64) -> TcpStream {
    let opens = has_syn(flags) && !s.synced;
    TcpStream {
        key: s.key,
        state: transition(s.state, flags).0,
        isn: if opens { seq } else { s.isn },
        base_seq: if opens { seq_add(seq, 1) } else { s.base_seq },
        next_seq: if opens { seq_add(seq, 1) } else { s.next_seq },
        end_seq: s.end_seq,
        last_ack: if has_ack(flags) { ack } else { s.last_ack },
        window_size: if has_ack(flags) { window as u32 } else { s.window_size },
        mss: s.mss,
        fin_seq: if has_fin(flags) { Some(seq) } else { s.fin_seq },
        segments: s.segments,
        reassembled_data: s.reassembled_data,
        sack_blocks: s.sack_blocks,
        stats: StreamStats {
            packet_count: inc64(s.stats.packet_count),
            byte_count: s.stats.byte_count,
            last_seen: now,
            gaps_detected: s.stats.gaps_detected,
            retransmissions: s.stats.retransmissions,
            out_of_order: s.stats.out_of_order,
            reassembly_errors: if transition(s.state, flags).1 {
                inc64(s.stats.reassembly_errors)
            } else {
                s.stats.reassembly_errors
            },
        },
        last_seen: s.last_seen,
        established: s.established || has_syn(flags),
        synced: s.synced || has_syn(flags),
    }
}

/// Where the bytes of a packet start: just past the SYN when it has one.
pub open spec fn data_seq_of(seq: u32, flags: u8) -> u32 {
    if has_syn(flags) {
        seq_add(seq, 1)
    } else {
        seq
    }
}

/// The flow `u` seen last at `now`.
pub open spec fn seen_at(u: TcpStream, now: u64) -> TcpStream {
    TcpStream {
        key: u.key,
        state: u.state,
        isn: u.isn,
        base_seq: u.base_seq,
        next_seq: u.next_seq,
        end_seq: u.end_seq,
        last_ack: u.last_ack,
        window_size: u.window_size,
        mss: u.mss,
        fin_seq: u.fin_seq,
        segments: u.segments,
        reassembled_data: u.reassembled_data,
        sack_blocks: u.sack_blocks,
        stats: u.stats,
        last_seen: now,
        established: u.established,
        synced: u.synced,
    }
}

/// What a packet with these fields does to the flow `s`, giving `t` and the
/// result `r`: its flags are applied (`after_flags`), then its bytes go
/// through `process_segment` (`data_step`), and the flow is marked seen at
/// `now`.
pub open spec fn packet_step(
    s: TcpStream,
    seq: u32,
    ack: u32,
    flags: u8,
    window: u16,
    payload: Seq<u8>,
    now: u64,
    limits: StreamLimits,
    t: TcpStream,
    r: Option<Vec<u8>>,
) -> bool {
    let m = after_flags(s, seq, ack, flags, window, now);
    &&& (payload.len() == 0 ==> r is None && t == seen_at(m, now))
    &&& (payload.len() > 0 ==> exists|u: TcpStream|
        #[trigger] data_step(m, data_seq_of(seq, flags), payload, limits, u, r) && t == seen_at(u, now))
}

impl TcpStream {
    /// Handles one TCP packet of the flow.
    pub fn handle_packet(
        &mut self,
        seq: u32,
        ack: u32,
        flags: u8,
        window: u16,
        payload: &[u8],
        now: u64,
        limits: &StreamLimits,
    ) -> (r: Option<Vec<u8>>)
        requires
            old(self).wf(),
        ensures
            final(self).wf(),
            packet_step(*old(self), seq, ack, flags, window, payload@, now, *limits, *final(self), r),
            final(self).key == old(self).key,
    {
        self.stats.last_seen = now;
        self.stats.packet_count = incr(self.stats.packet_count);
        let (state, unexpected) = next_state(self.state, flags);
        self.state = state;
        if unexpected {
            self.stats.reassembly_errors = incr(self.stats.reassembly_errors);
        }
        let syn = (flags / 2) % 2 == 1;
        let fin = flags % 2 == 1;
        let ack_set = (flags / 16) % 2 == 1;
        if ack_set {
            self.last_ack = ack;
            self.window_size = window as u32;
        }
        if fin {
            self.fin_seq = Some(seq);
        }
        let mut data_seq = seq;
        if syn {
            self.established = true;
            data_seq = seq_advance(seq, 1);
            if !self.synced {
                self.synced = true;
                self.isn = seq;
                self.base_seq = data_seq;
                self.next_seq = data_seq;
            }
        }
        let ghost mid = *self;
        assert(mid == after_flags(*old(self), seq, ack, flags, window, now));
        if payload.len() == 0 {
            self.last_seen = now;
            assert(*self == seen_at(mid, now));
            return None;
        }
        let r = self.process_segment(data_seq, payload, now, limits);
        let ghost u = *self;
        assert(data_seq == data_seq_of(seq, flags));
        assert(data_step(mid, data_seq_of(seq, flags), payload@, *limits, u, r));
        proof {
        }
        self.last_seen = now;
        assert(*self == seen_at(u, now));
        r
    }

    /// Expires the closing states that have waited too long: FIN-WAIT-2
    /// after a minute idle, TIME-WAIT after two.
    pub fn check_state_timeout(&mut self, now: u64)
        ensures
            final(self).state == state_after_timeout(old(self).state, old(self).last_seen, now),
            final(self).last_seen == old(self).last_seen,
            final(self).segments == old(self).segments,
            final(self).next_seq == old(self).next_seq,
            final(self).synced == old(self).synced,
            final(self).key == old(self).key,
    {
        self.state = timed_state(self.state, self.last_seen, now);
    }
}

/// The state that a quiet flow falls to by `now`.
pub open spec fn state_after_timeout(s: TcpState, last_seen: u64, now: u64) -> TcpState {
    match s {
        TcpState::FinWait2 => if now > last_seen && now - last_seen > 60_000 {
            TcpState::Closed
        } else {
            s
        },
        TcpState::TimeWait => if now > last_seen && now - last_seen > 120_000 {
            TcpState::Closed
        } else {
            s
        },
        _ => s,
    }
}

pub fn timed_state(s: TcpState, last_seen: u64, now: u64) -> (r: TcpState)
    ensures
        r == state_after_timeout(s, last_seen, now),
{
    match s {
        TcpState::FinWait2 => if now > last_seen && now - last_seen > 60_000 {
            TcpState::Closed
        } else {
            s
        },
        TcpState::TimeWait => if now > last_seen && now - last_seen > 120_000 {
            TcpState::Closed
        } else {
            s
        },
        _ => s,
    }
}

/// The bytes handed out by a run of calls, put together in order.
pub open spec fn concat_outs(rs: Seq<Option<Vec<u8>>>) -> Seq<u8>
    decreases rs.len(),
{
    if rs.len() == 0 {
        Seq::empty()
    } else {
        concat_outs(rs.drop_last()) + out_bytes(rs.last())
    }
}

/// Byte sequences put together in order.
pub open spec fn concat_all(ds: Seq<Seq<u8>>) -> Seq<u8>
    decreases ds.len(),
{
    if ds.len() == 0 {
        Seq::empty()
    } else {
        concat_all(ds.drop_last()) + ds.last()
    }
}

proof fn lemma_in_order_step(s: TcpStream, seq: u32, d: Seq<u8>, limits: StreamLimits, t: TcpStream, r: Option<Vec<u8>>)
    requires
        data_step(s, seq, d, limits, t, r),
        !s.synced || (s.segments@.len() == 0 && seq == s.next_seq),
        0 < d.len() <= MAX_SEGMENT_SPAN,
    ensures
        out_bytes(r) == d,
        t.synced,
        t.segments@.len() == 0,
        t.next_seq == seq_add(seq, d.len() as int),
        t.reassembled_data@ == s.reassembled_data@ + d,
{
}

/// The run of steps that `law_in_order_delivery` speaks of.
pub open spec fn in_order_run(
    ss: Seq<TcpStream>,
    seqs: Seq<u32>,
    datas: Seq<Seq<u8>>,
    limits: StreamLimits,
    rs: Seq<Option<Vec<u8>>>,
) -> bool {
    &&& ss.len() == datas.len() + 1
    &&& seqs.len() == datas.len()
    &&& rs.len() == datas.len()
    &&& datas.len() > 0
    &&& (!ss[0].synced || (ss[0].segments@.len() == 0 && seqs[0] == ss[0].next_seq))
    &&& forall|i: int| 0 <= i < datas.len() ==> 0 < (#[trigger] datas[i]).len() <= MAX_SEGMENT_SPAN
    &&& forall|i: int|
        0 <= i < datas.len() - 1 ==> seqs[i + 1] == seq_add(#[trigger] seqs[i], datas[i].len() as int)
    &&& forall|i: int| 0 <= i < datas.len() ==> data_step(#[trigger] ss[i], seqs[i], datas[i], limits, ss[i + 1], rs[i])
}

proof fn lemma_in_order_prefix(
    ss: Seq<TcpStream>,
    seqs: Seq<u32>,
    datas: Seq<Seq<u8>>,
    limits: StreamLimits,
    rs: Seq<Option<Vec<u8>>>,
    k: int,
)
    requires
        in_order_run(ss, seqs, datas, limits, rs),
        1 <= k <= datas.len(),
    ensures
        concat_outs(rs.take(k)) == concat_all(datas.take(k)),
        ss[k].reassembled_data@ == ss[0].reassembled_data@ + concat_all(datas.take(k)),
        ss[k].synced,
        ss[k].segments@.len() == 0,
        ss[k].next_seq == seq_add(seqs[k - 1], datas[k - 1].len() as int),
    decreases k,
{
    let i = k - 1;
    assert(data_step(ss[i], seqs[i], datas[i], limits, ss[i + 1], rs[i]));
    assert(0 < datas[i].len() <= MAX_SEGMENT_SPAN);
    assert(rs.take(k).drop_last() =~= rs.take(i));
    assert(datas.take(k).drop_last() =~= datas.take(i));
    assert(rs.take(k).last() == rs[i]);
    assert(datas.take(k).last() == datas[i]);
    if k == 1 {
        lemma_in_order_step(ss[0], seqs[0], datas[0], limits, ss[1], rs[0]);
        assert(rs.take(0) =~= Seq::<Option<Vec<u8>>>::empty());
        assert(datas.take(0) =~= Seq::<Seq<u8>>::empty());
        assert(concat_outs(rs.take(1)) == concat_outs(rs.take(0)) + out_bytes(rs[0]));
        assert(concat_all(datas.take(1)) == concat_all(datas.take(0)) + datas[0]);
        assert(concat_outs(rs.take(1)) =~= concat_all(datas.take(1)));
        assert(ss[0].reassembled_data@ + datas[0] =~= ss[0].reassembled_data@ + concat_all(datas.take(1)));
    } else {
        lemma_in_order_prefix(ss, seqs, datas, limits, rs, k - 1);
        assert(seqs[i] == seq_add(seqs[i - 1], datas[i - 1].len() as int));
        lemma_in_order_step(ss[i], seqs[i], datas[i], limits, ss[i + 1], rs[i]);
        assert(concat_outs(rs.take(k)) == concat_outs(rs.take(i)) + out_bytes(rs[i]));
        assert(concat_all(datas.take(k)) == concat_all(datas.take(i)) + datas[i]);
        assert(ss[0].reassembled_data@ + concat_all(datas.take(i)) + datas[i] =~= ss[0].reassembled_data@ + concat_all(
            datas.take(k),
        ));
    }
}

/// In-order delivery: on a flow with nothing buffered, or on a new flow,
/// data segments that arrive each where the last one ended come out one by
/// one, and what comes out, put together, is their bytes put together.
pub proof fn law_in_order_delivery(
    ss: Seq<TcpStream>,
    seqs: Seq<u32>,
    datas: Seq<Seq<u8>>,
    limits: StreamLimits,
    rs: Seq<Option<Vec<u8>>>,
)
    requires
        in_order_run(ss, seqs, datas, limits, rs),
    ensures
        concat_outs(rs) == concat_all(datas),
        ss.last().reassembled_data@ == ss[0].reassembled_data@ + concat_all(datas),
        ss.last().synced,
        ss.last().segments@.len() == 0,
        ss.last().next_seq == seq_add(seqs.last(), datas.last().len() as int),
{
    let n = datas.len() as int;
    lemma_in_order_prefix(ss, seqs, datas, limits, rs, n);
    assert(rs.take(n) =~= rs);
    assert(datas.take(n) =~= datas);
}

proof fn lemma_packet_in_order_step(
    s: TcpStream,
    seq: u32,
    ack: u32,
    flags: u8,
    window: u16,
    d: Seq<u8>,
    now: u64,
    limits: StreamLimits,
    t: TcpStream,
    r: Option<Vec<u8>>,
)
    requires
        packet_step(s, seq, ack, flags, window, d, now, limits, t, r),
        !has_syn(flags),
        !s.synced || (s.segments@.len() == 0 && seq == s.next_seq),
        0 < d.len() <= MAX_SEGMENT_SPAN,
    ensures
        out_bytes(r) == d,
        t.synced,
        t.segments@.len() == 0,
        t.next_seq == seq_add(seq, d.len() as int),
        t.reassembled_data@ == s.reassembled_data@ + d,
{
    let m = after_flags(s, seq, ack, flags, window, now);
    assert(data_seq_of(seq, flags) == seq);
    let u = choose|u: TcpStream| #[trigger] data_step(m, data_seq_of(seq, flags), d, limits, u, r) && t == seen_at(u, now);
    lemma_in_order_step(m, seq, d, limits, u, r);
}

/// The run of packets that `law_in_order_packets` speaks of: packets of one
/// flow without SYN, each starting where the last ended.
pub open spec fn in_order_packet_run(
    ss: Seq<TcpStream>,
    seqs: Seq<u32>,
    ack: u32,
    flags: u8,
    window: u16,
    datas: Seq<Seq<u8>>,
    nows: Seq<u64>,
    limits: StreamLimits,
    rs: Seq<Option<Vec<u8>>>,
) -> bool {
    &&& ss.len() == datas.len() + 1
    &&& seqs.len() == datas.len()
    &&& nows.len() == datas.len()
    &&& rs.len() == datas.len()
    &&& datas.len() > 0
    &&& !has_syn(flags)
    &&& (!ss[0].synced || (ss[0].segments@.len() == 0 && seqs[0] == ss[0].next_seq))
    &&& forall|i: int| 0 <= i < datas.len() ==> 0 < (#[trigger] datas[i]).len() <= MAX_SEGMENT_SPAN
    &&& forall|i: int|
        0 <= i < datas.len() - 1 ==> seqs[i + 1] == seq_add(#[trigger] seqs[i], datas[i].len() as int)
    &&& forall|i: int|
        0 <= i < datas.len() ==> packet_step(
            #[trigger] ss[i],
            seqs[i],
            ack,
            flags,
            window,
            datas[i],
            nows[i],
            limits,
            ss[i + 1],
            rs[i],
        )
}

proof fn lemma_in_order_packet_prefix(
    ss: Seq<TcpStream>,
    seqs: Seq<u32>,
    ack: u32,
    flags: u8,
    window: u16,
    datas: Seq<Seq<u8>>,
    nows: Seq<u64>,
    limits: StreamLimits,
    rs: Seq<Option<Vec<u8>>>,
    k: int,
)
    requires
        in_order_packet_run(ss, seqs, ack, flags, window, datas, nows, limits, rs),
        1 <= k <= datas.len(),
    ensures
        concat_outs(rs.take(k)) == concat_all(datas.take(k)),
        ss[k].reassembled_data@ == ss[0].reassembled_data@ + concat_all(datas.take(k)),
        ss[k].synced,
        ss[k].segments@.len() == 0,
        ss[k].next_seq == seq_add(seqs[k - 1], datas[k - 1].len() as int),
    decreases k,
{
    let i = k - 1;
    assert(packet_step(ss[i], seqs[i], ack, flags, window, datas[i], nows[i], limits, ss[i + 1], rs[i]));
    assert(0 < datas[i].len() <= MAX_SEGMENT_SPAN);
    assert(rs.take(k).drop_last() =~= rs.take(i));
    assert(datas.take(k).drop_last() =~= datas.take(i));
    assert(rs.take(k).last() == rs[i]);
    assert(datas.take(k).last() == datas[i]);
    if k == 1 {
        lemma_packet_in_order_step(ss[0], seqs[0], ack, flags, window, datas[0], nows[0], limits, ss[1], rs[0]);
        assert(rs.take(0) =~= Seq::<Option<Vec<u8>>>::empty());
        assert(datas.take(0) =~= Seq::<Seq<u8>>::empty());
        assert(concat_outs(rs.take(1)) == concat_outs(rs.take(0)) + out_bytes(rs[0]));
        assert(concat_all(datas.take(1)) == concat_all(datas.take(0)) + datas[0]);
        assert(concat_outs(rs.take(1)) =~= concat_all(datas.take(1)));
        assert(ss[0].reassembled_data@ + datas[0] =~= ss[0].reassembled_data@ + concat_all(datas.take(1)));
    } else {
        lemma_in_order_packet_prefix(ss, seqs, ack, flags, window, datas, nows, limits, rs, k - 1);
        assert(seqs[i] == seq_add(seqs[i - 1], datas[i - 1].len() as int));
        lemma_packet_in_order_step(ss[i], seqs[i], ack, flags, window, datas[i], nows[i], limits, ss[i + 1], rs[i]);
        assert(concat_outs(rs.take(k)) == concat_outs(rs.take(i)) + out_bytes(rs[i]));
        assert(concat_all(datas.take(k)) == concat_all(datas.take(i)) + datas[i]);
        assert(ss[0].reassembled_data@ + concat_all(datas.take(i)) + datas[i] =~= ss[0].reassembled_data@ + concat_all(
            datas.take(k),
        ));
    }
}

/// In-order delivery, packet by packet: packets of one flow without SYN
/// whose bytes each start where the last ended, on a new flow or one with
/// nothing buffered, give out their bytes one by one, and what comes out,
/// put together, is their bytes put together.
pub proof fn law_in_order_packets(
    ss: Seq<TcpStream>,
    seqs: Seq<u32>,
    ack: u32,
    flags: u8,
    window: u16,
    datas: Seq<Seq<u8>>,
    nows: Seq<u64>,
    limits: StreamLimits,
    rs: Seq<Option<Vec<u8>>>,
)
    requires
        in_order_packet_run(ss, seqs, ack, flags, window, datas, nows, limits, rs),
    ensures
        concat_outs(rs) == concat_all(datas),
        ss.last().reassembled_data@ == ss[0].reassembled_data@ + concat_all(datas),
{
    let n = datas.len() as int;
    lemma_in_order_packet_prefix(ss, seqs, ack, flags, window, datas, nows, limits, rs, n);
    assert(rs.take(n) =~= rs);
    assert(datas.take(n) =~= datas);
}

/// Two adjacent segments in either order: on a flow with nothing
/// buffered, a segment at the delivery point and the one that follows it
/// give the same delivered bytes whichever arrives first, when the second
/// fits ahead of the delivery point.
pub proof fn law_two_segments_either_order(
    s0: TcpStream,
    a_seq: u32,
    a: Seq<u8>,
    b_seq: u32,
    b: Seq<u8>,
    limits: StreamLimits,
    s1: TcpStream,
    r1: Option<Vec<u8>>,
    s2: TcpStream,
    r2: Option<Vec<u8>>,
    u1: TcpStream,
    q1: Option<Vec<u8>>,
    u2: TcpStream,
    q2: Option<Vec<u8>>,
)
    requires
        s0.synced,
        s0.segments@.len() == 0,
        a_seq == s0.next_seq,
        b_seq == seq_add(a_seq, a.len() as int),
        0 < a.len(),
        0 < b.len(),
        a.len() <= limits.max_gap,
        a.len() + b.len() <= MAX_SEGMENT_SPAN,
        s0.window_size == 0 || a.len() + b.len() <= s0.window_size,
        limits.max_segments > 0,
        b.len() <= limits.max_bytes,
        data_step(s0, a_seq, a, limits, s1, r1),
        data_step(s1, b_seq, b, limits, s2, r2),
        data_step(s0, b_seq, b, limits, u1, q1),
        data_step(u1, a_seq, a, limits, u2, q2),
    ensures
        s2.reassembled_data@ == s0.reassembled_data@ + a + b,
        u2.reassembled_data@ == s0.reassembled_data@ + a + b,
{
    assert(seq_dist(b_seq, a_seq) == a.len());
    assert(s1.next_seq == b_seq);
    assert(out_bytes(r1) == a);
    assert(out_bytes(r2) == b);
    assert(s0.reassembled_data@ + a + b =~= s0.reassembled_data@ + a + b);
    assert(seq_ahead(b_seq, s0.next_seq));
    assert(!fully_delivered(s0, b_seq, b.len() as int));
    assert(!buffered_copy(s0, b_seq, b));
    assert(sum_lens(s0.segments@) == 0);
    assert(fits_ahead(s0, b_seq, b, limits));
    assert(u1.segments@.len() == 1);
    assert(u1.segments@[0].seq == b_seq);
    assert(u1.segments@[0].data@ == b);
    assert(out_bytes(q1) == Seq::<u8>::empty());
    assert(u1.next_seq == s0.next_seq);
    assert(rel_start(u1.segments@[0], u1.next_seq) == a.len());
    assert(out_bytes(q2) == a + b);
    assert(u1.reassembled_data@ =~= s0.reassembled_data@);
    assert(s0.reassembled_data@ + (a + b) =~= s0.reassembled_data@ + a + b);
}

/// Retransmission suppression: once a flow has taken a segment, delivered
/// or buffered, the same segment again comes out as nothing and counts one
/// retransmission.
pub proof fn law_retransmission_suppressed(
    s0: TcpStream,
    s1: TcpStream,
    s2: TcpStream,
    seq: u32,
    data: Seq<u8>,
    limits: StreamLimits,
    r1: Option<Vec<u8>>,
    r2: Option<Vec<u8>>,
)
    requires
        s1.wf(),
        data.len() > 0,
        data_step(s0, seq, data, limits, s1, r1),
        r1 is Some || buffered_copy(s1, seq, data),
        data_step(s1, seq, data, limits, s2, r2),
    ensures
        r2 is None,
        s2.stats.retransmissions == inc64(s1.stats.retransmissions),
{
    if r1 is None {
        let i = choose|i: int| 0 <= i < s1.segments@.len() && (#[trigger] s1.segments@[i]).seq == seq && s1.segments@[i].data@ == data;
        assert(s1.segments@.len() > 0);
    }
    assert(covered(s1, seq, data));
}

proof fn lemma_filter_all<A>(s: Seq<A>, p: spec_fn(A) -> bool)
    requires
        forall|i: int| 0 <= i < s.len() ==> p(#[trigger] s[i]),
    ensures
        s.filter(p) == s,
    decreases s.len(),
{
    reveal(Seq::filter);
    if s.len() > 0 {
        lemma_filter_all(s.drop_last(), p);
        assert(s.drop_last().push(s.last()) =~= s);
    }
}

proof fn lemma_sum_lens_nonneg(segs: Seq<TcpSegment>)
    ensures
        sum_lens(segs) >= 0,
    decreases segs.len(),
{
    if segs.len() > 0 {
        lemma_sum_lens_nonneg(segs.drop_last());
    }
}

impl StreamStats {
    pub open spec fn new_spec(now: u64) -> StreamStats {
        StreamStats {
            packet_count: 0,
            byte_count: 0,
            last_seen: now,
            gaps_detected: 0,
            retransmissions: 0,
            out_of_order: 0,
            reassembly_errors: 0,
        }
    }
}

/// No two flows share a key.
pub open spec fn flow_keys_unique(ss: Seq<TcpStream>) -> bool {
    forall|i: int, j: int| 0 <= i < j < ss.len() ==> ss[i].key != ss[j].key
}

/// Some flow holds the key.
pub open spec fn has_flow(ss: Seq<TcpStream>, k: FlowKey) -> bool {
    exists|i: int| 0 <= i < ss.len() && (#[trigger] ss[i]).key == k
}

/// `s` is one of the flows.
pub open spec fn flow_in(ss: Seq<TcpStream>, s: TcpStream) -> bool {
    exists|i: int| 0 <= i < ss.len() && #[trigger] ss[i] == s
}

/// `s` is a flow just opened under `k` at `now`.
pub open spec fn fresh_flow(s: TcpStream, k: FlowKey, now: u64) -> bool {
    &&& s.wf()
    &&& s.key == k
    &&& s.state == TcpState::Closed
    &&& !s.synced
    &&& s.segments@.len() == 0
    &&& s.reassembled_data@.len() == 0
    &&& s.stats == StreamStats::new_spec(now)
}

/// The flow key of a TCP packet.
pub open spec fn packet_flow_key(p: DecodedPacket) -> FlowKey {
    match p.protocol {
        TransportProtocol::TCP { src_port, dst_port, .. } => FlowKey {
            src_ip: p.ip_header.source_ip,
            src_port,
            dst_ip: p.ip_header.dest_ip,
            dst_port,
        },
        TransportProtocol::UDP { src_port, dst_port, .. } => FlowKey {
            src_ip: p.ip_header.source_ip,
            src_port,
            dst_ip: p.ip_header.dest_ip,
            dst_port,
        },
    }
}

/// The key of the flow a packet belongs to, for TCP packets.
pub fn flow_key_of(packet: &DecodedPacket) -> (r: Option<FlowKey>)
    ensures
        packet.protocol is TCP <==> r is Some,
        r is Some ==> r->Some_0 == packet_flow_key(*packet),
{
    match &packet.protocol {
        TransportProtocol::TCP { src_port, dst_port, .. } => Some(
            FlowKey::new(packet.ip_header.source_ip, *src_port, packet.ip_header.dest_ip, *dst_port),
        ),
        TransportProtocol::UDP { .. } => None,
    }
}

/// The counters of flows added up, as `accumulate` adds them.
pub open spec fn add_stats(a: StreamStats, b: StreamStats) -> StreamStats {
    StreamStats {
        packet_count: add64(a.packet_count, b.packet_count as int),
        byte_count: add64(a.byte_count, b.byte_count as int),
        last_seen: if b.last_seen > a.last_seen {
            b.last_seen
        } else {
            a.last_seen
        },
        gaps_detected: add64(a.gaps_detected, b.gaps_detected as int),
        retransmissions: add64(a.retransmissions, b.retransmissions as int),
        out_of_order: add64(a.out_of_order, b.out_of_order as int),
        reassembly_errors: add64(a.reassembly_errors, b.reassembly_errors as int),
    }
}

pub open spec fn total_stats(ss: Seq<TcpStream>) -> StreamStats
    decreases ss.len(),
{
    if ss.len() == 0 {
        StreamStats::new_spec(0)
    } else {
        add_stats(total_stats(ss.drop_last()), ss.last().stats)
    }
}

/// What handling the packet `p` does to the shard `a`, giving `b` and the
/// result `r`.
pub open spec fn shard_step(a: TcpReassembler, p: DecodedPacket, b: TcpReassembler, r: Option<Vec<u8>>) -> bool {
    match p.protocol {
        TransportProtocol::UDP { .. } => r is None && b.streams@ == a.streams@,
        TransportProtocol::TCP { seq, ack, flags, window, payload, .. } => {
            let k = packet_flow_key(p);
            if !has_flow(a.streams@, k) && payload@.len() == 0 && flags % 8 == 0 {
                r is None && b.streams@ == a.streams@
            } else {
                &&& forall|x: int|
                    0 <= x < b.streams@.len() && b.streams@[x].key != k ==> flow_in(a.streams@, #[trigger] b.streams@[x])
                &&& (a.streams@.len() <= a.max_streams && a.max_streams > 0 ==> b.streams@.len() <= a.max_streams)
                &&& (!has_flow(a.streams@, k) && a.streams@.len() >= a.max_streams && a.streams@.len() > 0 ==> exists|j: int|
                    0 <= j < a.streams@.len() && (forall|x: int|
                        0 <= x < a.streams@.len() ==> a.streams@[j].last_seen <= #[trigger] a.streams@[x].last_seen)
                        && !has_flow(b.streams@, #[trigger] a.streams@[j].key))
                &&& exists|i: int, before: TcpStream|
                    0 <= i < b.streams@.len() && b.streams@[i].key == k && before.key == k
                        && #[trigger] packet_step(
                        before,
                        seq,
                        ack,
                        flags,
                        window,
                        payload@,
                        p.timestamp,
                        limits_of(a),
                        b.streams@[i],
                        r,
                    ) && (flow_in(a.streams@, before) || (!has_flow(a.streams@, k) && fresh_flow(
                        before,
                        k,
                        p.timestamp,
                    )))
            }
        },
    }
}

/// The limits that a shard applies to its flows.
pub open spec fn limits_of(a: TcpReassembler) -> StreamLimits {
    StreamLimits { max_gap: a.max_gap, max_segments: a.max_segments, max_bytes: MAX_STREAM_BYTES as usize, policy: a.policy }
}

/// One shard: a table of flows and the limits that apply to them.
#[derive(Debug)]
pub struct TcpReassembler {
    pub streams: Vec<TcpStream>,
    pub timeout_ms: u64,
    pub max_gap: u32,
    pub max_streams: usize,
    pub max_segments: usize,
    pub max_payload_size: usize,
    pub policy: ReassemblyPolicy,
    pub cleanup_interval_ms: u64,
}

impl TcpReassembler {
    pub open spec fn wf(&self) -> bool {
        &&& flow_keys_unique(self.streams@)
        &&& forall|i: int| 0 <= i < self.streams@.len() ==> (#[trigger] self.streams@[i]).wf()
    }

    pub fn new(max_segments: usize, max_payload_size: usize, timeout_ms: u64, cleanup_interval_ms: u64) -> (r: Self)
        ensures
            r.wf(),
            r.streams@.len() == 0,
            r.max_segments == max_segments,
            r.max_payload_size == max_payload_size,
            r.timeout_ms == timeout_ms,
            r.cleanup_interval_ms == cleanup_interval_ms,
            r.max_gap == 16384,
            r.max_streams == 1024,
            r.policy == ReassemblyPolicy::Windows,
    {
        TcpReassembler {
            streams: Vec::new(),
            timeout_ms,
            max_gap: 16384,
            max_streams: 1024,
            max_segments,
            max_payload_size,
            policy: ReassemblyPolicy::default_policy(),
            cleanup_interval_ms,
        }
    }

    pub fn set_policy(&mut self, policy: ReassemblyPolicy)
        ensures
            final(self).policy == policy,
            final(self).streams == old(self).streams,
            final(self).max_gap == old(self).max_gap,
            final(self).max_streams == old(self).max_streams,
            final(self).max_segments == old(self).max_segments,
            final(self).timeout_ms == old(self).timeout_ms,
    {
        self.policy = policy;
    }

    pub fn set_max_gap(&mut self, max_gap: u32)
        ensures
            final(self).max_gap == max_gap,
            final(self).streams == old(self).streams,
            final(self).policy == old(self).policy,
            final(self).max_streams == old(self).max_streams,
            final(self).max_segments == old(self).max_segments,
            final(self).timeout_ms == old(self).timeout_ms,
    {
        self.max_gap = max_gap;
    }

    pub fn set_max_streams(&mut self, max_streams: usize)
        ensures
            final(self).max_streams == max_streams,
            final(self).streams == old(self).streams,
            final(self).policy == old(self).policy,
            final(self).max_gap == old(self).max_gap,
            final(self).max_segments == old(self).max_segments,
            final(self).timeout_ms == old(self).timeout_ms,
    {
        self.max_streams = max_streams;
    }

    /// The limits that apply to every flow of the shard.
    pub fn limits(&self) -> (r: StreamLimits)
        ensures
            r == limits_of(*self),
    {
        StreamLimits { max_gap: self.max_gap, max_segments: self.max_segments, max_bytes: MAX_STREAM_BYTES, policy: self.policy }
    }

    /// The index of the flow under `key`.
    pub fn find_stream(&self, key: &FlowKey) -> (r: Option<usize>)
        ensures
            r is Some ==> r->Some_0 < self.streams@.len() && self.streams@[r->Some_0 as int].key == *key,
            r is None ==> !has_flow(self.streams@, *key),
    {
        let mut i: usize = 0;
        while i < self.streams.len()
            invariant
                0 <= i <= self.streams@.len(),
                forall|j: int| 0 <= j < i ==> (#[trigger] self.streams@[j]).key != *key,
            decreases self.streams@.len() - i,
        {
            if self.streams[i].key == *key {
                return Some(i);
            }
            i += 1;
        }
        None
    }

    /// Drops the flow seen least recently.
    pub fn find_and_remove_oldest_stream(&mut self)
        requires
            old(self).wf(),
        ensures
            final(self).wf(),
            old(self).streams@.len() > 0 ==> final(self).streams@.len() == old(self).streams@.len() - 1,
            old(self).streams@.len() > 0 ==> exists|j: int|
                0 <= j < old(self).streams@.len() && final(self).streams@ == old(self).streams@.remove(j) && forall|x: int|
                    0 <= x < old(self).streams@.len() ==> old(self).streams@[j].last_seen <= #[trigger] old(
                        self,
                    ).streams@[x].last_seen,
            old(self).streams@.len() == 0 ==> final(self).streams@.len() == 0,
            forall|k: FlowKey| has_flow(final(self).streams@, k) ==> has_flow(old(self).streams@, k),
            forall|i: int| 0 <= i < final(self).streams@.len() ==> flow_in(old(self).streams@, #[trigger] final(self).streams@[i]),
            final(self).max_streams == old(self).max_streams,
            final(self).max_gap == old(self).max_gap,
            final(self).max_segments == old(self).max_segments,
            final(self).policy == old(self).policy,
            final(self).timeout_ms == old(self).timeout_ms,
    {
        if self.streams.len() == 0 {
            return;
        }
        let mut oldest: usize = 0;
        let mut i: usize = 1;
        while i < self.streams.len()
            invariant
                0 <= oldest < self.streams@.len(),
                1 <= i <= self.streams@.len(),
                forall|x: int| 0 <= x < i ==> self.streams@[oldest as int].last_seen <= #[trigger] self.streams@[x].last_seen,
            decreases self.streams@.len() - i,
        {
            if self.streams[i].last_seen < self.streams[oldest].last_seen {
                oldest = i;
            }
            i += 1;
        }
        let ghost before = self.streams@;
        self.streams.remove(oldest);
        assert(self.streams@ == before.remove(oldest as int));
        proof {
            assert forall|a: int| 0 <= a < self.streams@.len() implies #[trigger] self.streams@[a] == (if a < oldest {
                before[a]
            } else {
                before[a + 1]
            }) by {}
            assert forall|a: int, b: int| 0 <= a < b < self.streams@.len() implies self.streams@[a].key != self.streams@[b].key by {
                let a2 = if a < oldest { a } else { a + 1 };
                let b2 = if b < oldest { b } else { b + 1 };
                assert(self.streams@[a] == before[a2]);
                assert(self.streams@[b] == before[b2]);
            }
            assert forall|i: int| 0 <= i < self.streams@.len() implies flow_in(before, #[trigger] self.streams@[i]) by {
                let i2 = if i < oldest { i } else { i + 1 };
                assert(self.streams@[i] == before[i2]);
            }
            assert forall|k: FlowKey| has_flow(self.streams@, k) implies has_flow(before, k) by {
                let j = choose|j: int| 0 <= j < self.streams@.len() && (#[trigger] self.streams@[j]).key == k;
                let j2 = if j < oldest { j } else { j + 1 };
                assert(self.streams@[j] == before[j2]);
            }
        }
    }

    /// Handles one decoded packet. Packets other than TCP give nothing.
    /// A TCP packet goes to the flow of its key, which is opened when the
    /// packet carries bytes or a SYN, FIN or RST (the flow seen least
    /// recently makes room when the table is full).
    pub fn process_packet(&mut self, packet: &DecodedPacket) -> (r: Option<Vec<u8>>)
        requires
            old(self).wf(),
        ensures
            final(self).wf(),
            final(self).max_streams == old(self).max_streams,
            final(self).max_gap == old(self).max_gap,
            final(self).max_segments == old(self).max_segments,
            final(self).policy == old(self).policy,
            final(self).timeout_ms == old(self).timeout_ms,
            shard_step(*old(self), *packet, *final(self), r),
    {
        let key = match flow_key_of(packet) {
            Some(k) => k,
            None => {
                return None;
            },
        };
        let (seq, ack, flags, window, payload) = match &packet.protocol {
            TransportProtocol::TCP { seq, ack, flags, window, payload, .. } => (*seq, *ack, *flags, *window, payload),
            TransportProtocol::UDP { .. } => {
                return None;
            },
        };
        let now = packet.timestamp;
        let limits = self.limits();
        let ghost pre = self.streams@;
        let ghost mut after_evict = self.streams@;
        let i = match self.find_stream(&key) {
            Some(i) => i,
            None => {
                if payload.len() == 0 && flags % 8 == 0 {
                    return None;
                }
                if self.streams.len() >= self.max_streams {
                    self.find_and_remove_oldest_stream();
                }
                proof {
                    after_evict = self.streams@;
                }
                let fresh = TcpStream::new(key, now);
                let ghost before = self.streams@;
                self.streams.push(fresh);
                proof {
                    assert forall|a: int, b: int| 0 <= a < b < self.streams@.len() implies self.streams@[a].key != self.streams@[b].key by {
                        if b == before.len() {
                            assert(self.streams@[a] == before[a]);
                        }
                    }
                    assert forall|x: int| 0 <= x < self.streams@.len() && self.streams@[x].key != key implies flow_in(
                        old(self).streams@,
                        #[trigger] self.streams@[x],
                    ) by {
                        assert(x < before.len());
                        assert(self.streams@[x] == before[x]);
                        if before == old(self).streams@ {
                            assert(old(self).streams@[x] == before[x]);
                        }
                    }
                }
                self.streams.len() - 1
            },
        };
        let ghost table = self.streams@;
        let ghost before = self.streams@[i as int];
        let r = self.streams[i].handle_packet(seq, ack, flags, window, payload.as_slice(), now, &limits);
        proof {
            assert(self.streams@ == table.update(i as int, self.streams@[i as int]));
            assert forall|a: int, b: int| 0 <= a < b < self.streams@.len() implies self.streams@[a].key != self.streams@[b].key by {
                if a == i {
                    assert(self.streams@[a].key == table[a].key);
                } else if b == i {
                    assert(self.streams@[b].key == table[b].key);
                }
            }
            assert(self.streams@[i as int].key == key);
            assert(packet_step(before, seq, ack, flags, window, payload@, now, limits, self.streams@[i as int], r));
            if !has_flow(pre, key) && pre.len() >= self.max_streams && pre.len() > 0 {
                let j = choose|j: int|
                    0 <= j < pre.len() && after_evict == pre.remove(j) && forall|x: int|
                        0 <= x < pre.len() ==> pre[j].last_seen <= #[trigger] pre[x].last_seen;
                assert forall|x: int| 0 <= x < self.streams@.len() implies #[trigger] self.streams@[x].key != pre[j].key by {
                    if x != i {
                        assert(self.streams@[x] == table[x]);
                        assert(table[x] == after_evict[x]);
                        let x2 = if x < j { x } else { x + 1 };
                        assert(after_evict[x] == pre[x2]);
                    }
                }
                assert(!has_flow(self.streams@, pre[j].key));
            }
            assert forall|x: int| 0 <= x < self.streams@.len() && self.streams@[x].key != key implies flow_in(
                old(self).streams@,
                #[trigger] self.streams@[x],
            ) by {
                assert(x != i);
                assert(self.streams@[x] == table[x]);
            }
        }
        r
    }

    /// The number of flows held.
    pub fn get_stream_count(&self) -> (r: usize)
        ensures
            r == self.streams@.len(),
    {
        self.streams.len()
    }

    /// The counters of the flow under `key`.
    pub fn get_stream_stats(&self, key: &FlowKey) -> (r: Option<StreamStats>)
        ensures
            r is None <==> !has_flow(self.streams@, *key),
            r is Some ==> exists|i: int|
                0 <= i < self.streams@.len() && (#[trigger] self.streams@[i]).key == *key && r->Some_0
                    == self.streams@[i].stats,
    {
        match self.find_stream(key) {
            Some(i) => Some(self.streams[i].stats),
            None => None,
        }
    }

    /// Everything delivered so far on the flow under `key`, when there is
    /// some.
    pub fn get_reassembled_data(&self, key: &FlowKey) -> (r: Option<Vec<u8>>)
        requires
            self.wf(),
        ensures
            r is Some ==> exists|i: int|
                0 <= i < self.streams@.len() && (#[trigger] self.streams@[i]).key == *key && r->Some_0@
                    == self.streams@[i].reassembled_data@ && r->Some_0@.len() > 0,
            r is None ==> forall|i: int|
                0 <= i < self.streams@.len() && (#[trigger] self.streams@[i]).key == *key
                    ==> self.streams@[i].reassembled_data@.len() == 0,
    {
        match self.find_stream(key) {
            Some(i) => {
                let s = &self.streams[i];
                if s.reassembled_data.len() == 0 {
                    proof {
                        assert forall|j: int| 0 <= j < self.streams@.len() && (#[trigger] self.streams@[j]).key == *key implies self.streams@[j].reassembled_data@.len() == 0 by {
                            if j != i {
                                assert(self.streams@[j].key != self.streams@[i as int].key);
                            }
                        }
                    }
                    None
                } else {
                    Some(slice_to_vec(s.reassembled_data.as_slice()))
                }
            },
            None => None,
        }
    }

    /// The counters of every flow added up.
    pub fn get_stats(&self) -> (r: StreamStats)
        ensures
            r == total_stats(self.streams@),
    {
        let mut total = StreamStats::new(0);
        let mut i: usize = 0;
        while i < self.streams.len()
            invariant
                0 <= i <= self.streams@.len(),
                total == total_stats(self.streams@.take(i as int)),
            decreases self.streams@.len() - i,
        {
            proof {
                assert(self.streams@.take(i + 1).drop_last() =~= self.streams@.take(i as int));
            }
            total.accumulate(&self.streams[i].stats);
            i += 1;
        }
        assert(self.streams@.take(i as int) =~= self.streams@);
        total
    }

    /// Drops every flow.
    pub fn shutdown(&mut self)
        ensures
            final(self).wf(),
            final(self).streams@.len() == 0,
            final(self).max_streams == old(self).max_streams,
            final(self).max_gap == old(self).max_gap,
            final(self).max_segments == old(self).max_segments,
            final(self).policy == old(self).policy,
            final(self).timeout_ms == old(self).timeout_ms,
    {
        self.streams = Vec::new();
    }
}

/// A buffered segment is dropped once retransmitted more than three times,
/// thirty seconds after its last retransmission, or when older than the
/// flow timeout.
pub open spec fn segment_expired(g: TcpSegment, now: u64, timeout: u64) -> bool {
    g.retransmit_count > 3 || match g.last_retransmit {
        Some(t) => older_than_spec(t, now, 30_000),
        None => false,
    } || older_than_spec(g.received_at, now, timeout)
}

impl TcpStream {
    /// Drops the buffered segments that have expired at `now`.
    pub fn cleanup_expired(&mut self, now: u64, timeout: u64)
        requires
            old(self).wf(),
        ensures
            final(self).wf(),
            forall|i: int| 0 <= i < final(self).segments@.len() ==> !segment_expired(#[trigger] final(self).segments@[i], now, timeout),
            final(self).key == old(self).key,
            final(self).last_seen == old(self).last_seen,
            final(self).reassembled_data == old(self).reassembled_data,
            final(self).next_seq == old(self).next_seq,
    {
        let next = self.next_seq;
        let mut rest: Vec<TcpSegment> = Vec::new();
        std::mem::swap(&mut rest, &mut self.segments);
        let ghost orig = rest@;
        let n = rest.len();
        let mut kept: Vec<TcpSegment> = Vec::new();
        let mut i: usize = 0;
        while i < n
            invariant
                0 <= i <= n,
                n == orig.len(),
                segs_wf(orig, next),
                rest@ == orig.subrange(i as int, n as int),
                segs_wf(kept@, next),
                kept@.len() <= i,
                forall|k: int| 0 <= k < kept@.len() ==> !segment_expired(#[trigger] kept@[k], now, timeout),
                forall|k: int| 0 <= k < kept@.len() ==> exists|j: int| 0 <= j < i && #[trigger] kept@[k] == orig[j],
            decreases n - i,
        {
            let g = rest.remove(0);
            proof {
                assert(g == orig[i as int]);
                assert(orig.subrange(i as int, n as int).remove(0) =~= orig.subrange(i + 1, n as int));
            }
            let stale_retransmit = match g.last_retransmit {
                Some(t) => older_than(t, now, 30_000),
                None => false,
            };
            if !(g.retransmit_count > 3 || stale_retransmit || older_than(g.received_at, now, timeout)) {
                let ghost before = kept@;
                kept.push(g);
                proof {
                    assert forall|k: int| 0 <= k < kept@.len() implies exists|j: int| 0 <= j < i + 1 && #[trigger] kept@[k] == orig[j] by {
                        if k < before.len() {
                            assert(kept@[k] == before[k]);
                        } else {
                            assert(kept@[k] == orig[i as int]);
                        }
                    }
                    assert forall|x: int, y: int|
                        0 <= x < y < kept@.len() implies rel_end(#[trigger] kept@[x], next) <= rel_start(#[trigger] kept@[y], next)
                        || rel_end(kept@[y], next) <= rel_start(kept@[x], next) by {
                        if y == before.len() {
                            let jx = choose|j: int| 0 <= j < i && #[trigger] before[x] == orig[j];
                            assert(kept@[x] == orig[jx]);
                            assert(kept@[y] == orig[i as int]);
                        }
                    }
                }
            }
            i += 1;
        }
        self.segments = kept;
    }
}

impl TcpReassembler {
    /// Drops the flows idle for longer than the timeout; in the others,
    /// drops expired segments and expires the closing states.
    pub fn cleanup_expired(&mut self, now: u64)
        requires
            old(self).wf(),
        ensures
            final(self).wf(),
            forall|i: int| 0 <= i < final(self).streams@.len() ==> !older_than_spec(#[trigger] final(self).streams@[i].last_seen, now, old(self).timeout_ms),
            forall|k: FlowKey| has_flow(final(self).streams@, k) ==> has_flow(old(self).streams@, k),
            forall|x: int|
                0 <= x < final(self).streams@.len() ==> exists|j: int|
                    0 <= j < old(self).streams@.len() && (#[trigger] final(self).streams@[x]).key == old(self).streams@[j].key
                        && final(self).streams@[x].last_seen == old(self).streams@[j].last_seen,
            forall|i: int| 0 <= i < old(self).streams@.len() && !older_than_spec(#[trigger] old(self).streams@[i].last_seen, now, old(self).timeout_ms)
                ==> has_flow(final(self).streams@, old(self).streams@[i].key),
            final(self).max_streams == old(self).max_streams,
            final(self).max_gap == old(self).max_gap,
            final(self).max_segments == old(self).max_segments,
            final(self).policy == old(self).policy,
            final(self).timeout_ms == old(self).timeout_ms,
    {
        let timeout = self.timeout_ms;
        let mut rest: Vec<TcpStream> = Vec::new();
        std::mem::swap(&mut rest, &mut self.streams);
        let ghost orig = rest@;
        let n = rest.len();
        let mut kept: Vec<TcpStream> = Vec::new();
        let mut i: usize = 0;
        while i < n
            invariant
                0 <= i <= n,
                n == orig.len(),
                flow_keys_unique(orig),
                forall|k: int| 0 <= k < orig.len() ==> (#[trigger] orig[k]).wf(),
                rest@ == orig.subrange(i as int, n as int),
                flow_keys_unique(kept@),
                forall|k: int| 0 <= k < kept@.len() ==> (#[trigger] kept@[k]).wf(),
                forall|k: int| 0 <= k < kept@.len() ==> !older_than_spec(#[trigger] kept@[k].last_seen, now, timeout),
                forall|k: int|
                    0 <= k < kept@.len() ==> exists|j: int|
                        0 <= j < i && (#[trigger] kept@[k]).key == orig[j].key && kept@[k].last_seen == orig[j].last_seen,
                forall|j: int| 0 <= j < i && !older_than_spec(#[trigger] orig[j].last_seen, now, timeout) ==> has_flow(kept@, orig[j].key),
            decreases n - i,
        {
            let mut g = rest.remove(0);
            proof {
                assert(g == orig[i as int]);
                assert(orig.subrange(i as int, n as int).remove(0) =~= orig.subrange(i + 1, n as int));
            }
            if !older_than(g.last_seen, now, timeout) {
                g.cleanup_expired(now, timeout);
                g.check_state_timeout(now);
                proof {
                    assert(g.wf());
                }
                let ghost before = kept@;
                kept.push(g);
                proof {
                    assert(kept@[before.len() as int] == g);
                    assert(has_flow(kept@, orig[i as int].key));
                    assert forall|k: int| 0 <= k < kept@.len() implies exists|j: int|
                        0 <= j < i + 1 && (#[trigger] kept@[k]).key == orig[j].key && kept@[k].last_seen == orig[j].last_seen by {
                        if k < before.len() {
                            assert(kept@[k] == before[k]);
                        } else {
                            assert(kept@[k].key == orig[i as int].key);
                            assert(kept@[k].last_seen == orig[i as int].last_seen);
                        }
                    }
                    assert forall|x: int, y: int| 0 <= x < y < kept@.len() implies kept@[x].key != kept@[y].key by {
                        if y == before.len() {
                            let jx = choose|j: int| 0 <= j < i && (#[trigger] before[x]).key == orig[j].key;
                            assert(kept@[x] == before[x]);
                        }
                    }
                    assert forall|j: int| 0 <= j < i && !older_than_spec(#[trigger] orig[j].last_seen, now, timeout) implies has_flow(kept@, orig[j].key) by {
                        let w = choose|w: int| 0 <= w < before.len() && (#[trigger] before[w]).key == orig[j].key;
                        assert(kept@[w] == before[w]);
                    }
                }
            }
            i += 1;
        }
        proof {
            assert forall|k: FlowKey| has_flow(kept@, k) implies has_flow(orig, k) by {
                let w = choose|w: int| 0 <= w < kept@.len() && (#[trigger] kept@[w]).key == k;
                let j = choose|j: int| 0 <= j < i && (#[trigger] kept@[w]).key == orig[j].key;
                assert(orig[j].key == k);
            }
        }
        self.streams = kept;
    }
}

/// The SACK block covers `seq`; an empty slot (both ends zero) covers
/// nothing.
pub open spec fn sack_covers(b: SackBlock, seq: u32) -> bool {
    b.start_seq != 0 && b.end_seq != 0 && b.start_seq <= seq && seq < b.end_seq
}

impl TcpStream {
    /// `seq` lies in the window that starts at the stream's base; on a flow
    /// whose base is still zero every number does.
    pub fn is_seq_valid(&self, seq: u32) -> (r: bool)
        ensures
            r == (self.base_seq == 0 || crate::seqnum::in_window(seq, self.base_seq, self.window_size)),
    {
        if self.base_seq == 0 {
            return true;
        }
        crate::seqnum::is_seq_in_window(seq, self.base_seq, self.window_size)
    }

    /// Raises the recorded end of the stream to `seq`.
    pub fn update_end_seq(&mut self, seq: u32)
        ensures
            final(self).end_seq == if seq > old(self).end_seq {
                seq
            } else {
                old(self).end_seq
            },
            final(self).segments == old(self).segments,
            final(self).next_seq == old(self).next_seq,
            final(self).synced == old(self).synced,
    {
        if seq > self.end_seq {
            self.end_seq = seq;
        }
    }

    pub fn update_window(&mut self, window: u16)
        ensures
            final(self).window_size == window,
            final(self).segments == old(self).segments,
            final(self).next_seq == old(self).next_seq,
            final(self).synced == old(self).synced,
    {
        self.window_size = window as u32;
    }

    pub fn update_ack(&mut self, ack: u32)
        ensures
            final(self).last_ack == ack,
            final(self).segments == old(self).segments,
            final(self).next_seq == old(self).next_seq,
            final(self).synced == old(self).synced,
    {
        self.last_ack = ack;
    }

    /// Clears the SACK blocks that end at or below the last acknowledgement.
    pub fn cleanup_sack_blocks(&mut self)
        ensures
            final(self).sack_blocks@.len() == old(self).sack_blocks@.len(),
            forall|i: int|
                0 <= i < old(self).sack_blocks@.len() ==> (#[trigger] final(self).sack_blocks@[i]) == if old(
                    self,
                ).sack_blocks@[i].end_seq <= old(self).last_ack {
                    SackBlock { start_seq: 0, end_seq: 0 }
                } else {
                    old(self).sack_blocks@[i]
                },
            final(self).segments == old(self).segments,
            final(self).next_seq == old(self).next_seq,
            final(self).synced == old(self).synced,
            final(self).last_ack == old(self).last_ack,
    {
        let mut i: usize = 0;
        while i < self.sack_blocks.len()
            invariant
                0 <= i <= self.sack_blocks@.len(),
                self.sack_blocks@.len() == old(self).sack_blocks@.len(),
                self.segments == old(self).segments,
                self.next_seq == old(self).next_seq,
                self.synced == old(self).synced,
                self.last_ack == old(self).last_ack,
                forall|k: int|
                    0 <= k < i ==> (#[trigger] self.sack_blocks@[k]) == if old(self).sack_blocks@[k].end_seq
                        <= old(self).last_ack {
                        SackBlock { start_seq: 0, end_seq: 0 }
                    } else {
                        old(self).sack_blocks@[k]
                    },
                forall|k: int| i <= k < self.sack_blocks@.len() ==> self.sack_blocks@[k] == old(self).sack_blocks@[k],
            decreases self.sack_blocks@.len() - i,
        {
            if self.sack_blocks[i].end_seq <= self.last_ack {
                self.sack_blocks.set(i, SackBlock { start_seq: 0, end_seq: 0 });
            }
            i += 1;
        }
    }

    /// Records a SACK block: after clearing acknowledged blocks, it fills the
    /// first empty slot or extends the first block it touches; a fifth block
    /// takes a slot only while fewer than four are held.
    pub fn update_sack_blocks(&mut self, new_block: SackBlock)
        ensures
            final(self).sack_blocks@.len() <= 4 || final(self).sack_blocks@.len() == old(self).sack_blocks@.len(),
            final(self).segments == old(self).segments,
            final(self).next_seq == old(self).next_seq,
            final(self).synced == old(self).synced,
    {
        self.cleanup_sack_blocks();
        let mut i: usize = 0;
        while i < self.sack_blocks.len()
            invariant
                0 <= i <= self.sack_blocks@.len(),
                self.sack_blocks@.len() == old(self).sack_blocks@.len(),
                self.segments == old(self).segments,
                self.next_seq == old(self).next_seq,
                self.synced == old(self).synced,
            decreases self.sack_blocks@.len() - i,
        {
            let b = self.sack_blocks[i];
            if b.start_seq == 0 && b.end_seq == 0 {
                self.sack_blocks.set(i, new_block);
                return;
            }
            if new_block.end_seq == b.start_seq {
                self.sack_blocks.set(i, SackBlock { start_seq: new_block.start_seq, end_seq: b.end_seq });
                return;
            }
            if new_block.start_seq == b.end_seq {
                self.sack_blocks.set(i, SackBlock { start_seq: b.start_seq, end_seq: new_block.end_seq });
                return;
            }
            i += 1;
        }
        if self.sack_blocks.len() < 4 {
            self.sack_blocks.push(new_block);
        }
    }

    /// Some SACK block covers `seq`.
    pub fn is_seq_sacked(&self, seq: u32) -> (r: bool)
        ensures
            r == exists|i: int| 0 <= i < self.sack_blocks@.len() && sack_covers(#[trigger] self.sack_blocks@[i], seq),
    {
        let mut i: usize = 0;
        while i < self.sack_blocks.len()
            invariant
                0 <= i <= self.sack_blocks@.len(),
                forall|k: int| 0 <= k < i ==> !sack_covers(#[trigger] self.sack_blocks@[k], seq),
            decreases self.sack_blocks@.len() - i,
        {
            let b = self.sack_blocks[i];
            if b.start_seq != 0 && b.end_seq != 0 && b.start_seq <= seq && seq < b.end_seq {
                assert(sack_covers(self.sack_blocks@[i as int], seq));
                return true;
            }
            i += 1;
        }
        false
    }
}

} // verus!
