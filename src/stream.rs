//! A hash-sharded façade over independent TCP reassembler shards.
use vstd::prelude::*;
use vstd::string::StringSliceAdditionalSpecFns;
use crate::decode::{DecodedPacket, TransportProtocol};
use crate::error::ReassembleError;
use crate::stream_tcp::{
    flow_key_of, has_flow, packet_flow_key, shard_step, FlowKey, StreamStats, TcpReassembler,
};

verus! {

/// A prime just below 2^32 that the key hash is taken modulo.
pub const HASH_MODULUS: u64 = 4_294_967_291;

/// Configuration of a sharded reassembler.
#[derive(Debug, Clone, Copy, PartialEq, Eq, Structural)]
pub struct ShardConfig {
    /// Number of shards.
    pub shard_count: usize,
    /// Idle time after which a flow is dropped, in seconds.
    pub timeout_secs: u64,
    /// Largest gap ahead of the delivery point that a segment may leave.
    pub max_gap: u32,
    /// Flows held by one shard before the least recent one makes room.
    pub max_streams_per_shard: usize,
    /// Segments buffered by one flow before the oldest makes room.
    pub max_segments: usize,
    /// Load above which a shard is reported.
    pub rebalance_threshold: usize,
    /// Interval of the statistics cleanup, in seconds.
    pub stats_cleanup_interval: u64,
}

/// Relies on num_cpus::get: the number of CPUs this process may use, which
/// its documentation promises is at least one.
#[verifier::external_body]
fn cpu_count() -> (r: usize)
    ensures
        r >= 1,
{
    num_cpus::get()
}

impl Default for ShardConfig {
    /// One shard per CPU, a 30 s flow timeout, a gap of 1024 bytes, 1000
    /// flows per shard and 100 segments per flow.
    fn default() -> (r: Self)
        ensures
            r.shard_count >= 1,
            r.timeout_secs == 30,
            r.max_gap == 1024,
            r.max_streams_per_shard == 1000,
            r.max_segments == 100,
            r.rebalance_threshold == 1_000_000,
            r.stats_cleanup_interval == 300,
    {
        ShardConfig {
            shard_count: cpu_count(),
            timeout_secs: 30,
            max_gap: 1024,
            max_streams_per_shard: 1000,
            max_segments: 100,
            rebalance_threshold: 1_000_000,
            stats_cleanup_interval: 300,
        }
    }
}

/// A hash of bytes: each byte folded in as `h * 31 + b` modulo a prime.
pub open spec fn bytes_hash(b: Seq<u8>) -> int
    decreases b.len(),
{
    if b.len() == 0 {
        0
    } else {
        (bytes_hash(b.drop_last()) * 31 + b.last()) % (HASH_MODULUS as int)
    }
}

pub fn hash_bytes(b: &[u8]) -> (r: u64)
    ensures
        r == bytes_hash(b@),
{
    let mut h: u64 = 0;
    let mut i: usize = 0;
    while i < b.len()
        invariant
            0 <= i <= b@.len(),
            h == bytes_hash(b@.take(i as int)),
            h < HASH_MODULUS,
        decreases b@.len() - i,
    {
        proof {
            assert(b@.take(i + 1).drop_last() =~= b@.take(i as int));
        }
        h = (h * 31 + b[i] as u64) % HASH_MODULUS;
        i += 1;
    }
    assert(b@.take(i as int) =~= b@);
    h
}

/// The decimal digits of `n`.
pub open spec fn decimal(n: nat) -> Seq<u8>
    decreases n,
{
    if n < 10 {
        seq![(48 + n) as u8]
    } else {
        decimal(n / 10).push((48 + n % 10) as u8)
    }
}

/// Appends the decimal digits of `n`.
pub fn push_decimal(v: &mut Vec<u8>, n: u64)
    ensures
        final(v)@ == old(v)@ + decimal(n as nat),
    decreases n,
{
    if n >= 10 {
        push_decimal(v, n / 10);
    }
    let ghost mid = v@;
    v.push((48 + n % 10) as u8);
    proof {
        if n >= 10 {
            assert(old(v)@ + decimal(n as nat) =~= (old(v)@ + decimal((n / 10) as nat)).push((48 + n % 10) as u8));
        } else {
            assert(old(v)@ + decimal(n as nat) =~= old(v)@.push((48 + n % 10) as u8));
        }
    }
}

/// The text of a flow key, `src_ip:src_port-dst_ip:dst_port`, each
/// address written as one decimal number.
pub open spec fn flow_key_text(k: FlowKey) -> Seq<u8> {
    decimal(k.src_ip as nat) + seq![58u8] + decimal(k.src_port as nat) + seq![45u8] + decimal(k.dst_ip as nat) + seq![
        58u8,
    ] + decimal(k.dst_port as nat)
}

/// The text of a flow key, as bytes.
pub fn key_bytes(k: &FlowKey) -> (r: Vec<u8>)
    ensures
        r@ == flow_key_text(*k),
{
    let mut v: Vec<u8> = Vec::new();
    push_decimal(&mut v, k.src_ip as u64);
    v.push(58u8);
    push_decimal(&mut v, k.src_port as u64);
    v.push(45u8);
    push_decimal(&mut v, k.dst_ip as u64);
    v.push(58u8);
    push_decimal(&mut v, k.dst_port as u64);
    assert(v@ =~= flow_key_text(*k));
    v
}

/// The shard, out of `n`, that owns the flow `k`.
pub open spec fn shard_of(k: FlowKey, n: int) -> int {
    bytes_hash(flow_key_text(k)) % n
}

/// The shard, out of `n`, that owns the flow `k`.
pub fn shard_index(k: &FlowKey, n: usize) -> (r: usize)
    requires
        n > 0,
    ensures
        r == shard_of(*k, n as int),
        r < n,
{
    (hash_bytes(key_bytes(k).as_slice()) % n as u64) as usize
}

/// Shard locality: two packets of one flow go to the same shard, for any
/// number of shards.
pub proof fn law_shard_locality(first: DecodedPacket, second: DecodedPacket, n: int)
    requires
        n > 0,
        first.protocol is TCP,
        second.protocol is TCP,
        packet_flow_key(first) == packet_flow_key(second),
    ensures
        shard_of(packet_flow_key(first), n) == shard_of(packet_flow_key(second), n),
        0 <= shard_of(packet_flow_key(first), n) < n,
{
}

/// What handling the packet `p` does to the sharded reassembler `a`,
/// giving `b` and the result `r`: anything but TCP changes nothing and
/// gives nothing; a TCP packet takes the step `shard_step` in the shard
/// that owns its flow, and no other shard changes.
pub open spec fn sharded_step(a: ShardedTcpReassembler, p: DecodedPacket, b: ShardedTcpReassembler, r: Option<Vec<u8>>) -> bool {
    &&& b.wf()
    &&& b.shard_count == a.shard_count
    &&& b.config == a.config
    &&& (p.protocol is UDP ==> r is None && b.shards@ == a.shards@)
    &&& (p.protocol is TCP ==> {
        let j = shard_of(packet_flow_key(p), a.shard_count as int);
        &&& shard_step(a.shards@[j], p, b.shards@[j], r)
        &&& forall|x: int| 0 <= x < a.shards@.len() && x != j ==> b.shards@[x] == a.shards@[x]
    })
}

/// A reassembler split into shards, each owning the flows whose key hashes
/// to it.
#[derive(Debug)]
pub struct ShardedTcpReassembler {
    pub shards: Vec<TcpReassembler>,
    pub shard_count: usize,
    pub config: ShardConfig,
}

impl ShardedTcpReassembler {
    pub open spec fn wf(&self) -> bool {
        &&& self.shard_count >= 1
        &&& self.shards@.len() == self.shard_count
        &&& forall|j: int| 0 <= j < self.shards@.len() ==> (#[trigger] self.shards@[j]).wf()
    }

    /// Builds the shards that `config` asks for (at least one), each with
    /// the configured limits.
    pub fn new(config: ShardConfig) -> (r: Self)
        ensures
            r.wf(),
            r.shard_count == if config.shard_count == 0 {
                1
            } else {
                config.shard_count
            },
            r.config == config,
            forall|j: int|
                0 <= j < r.shards@.len() ==> (#[trigger] r.shards@[j]).streams@.len() == 0 && r.shards@[j].max_gap
                    == config.max_gap && r.shards@[j].max_streams == config.max_streams_per_shard
                    && r.shards@[j].max_segments == config.max_segments,
    {
        let count = if config.shard_count == 0 {
            1
        } else {
            config.shard_count
        };
        let timeout_ms = if config.timeout_secs > u64::MAX / 1000 {
            u64::MAX
        } else {
            config.timeout_secs * 1000
        };
        let interval_ms = if config.stats_cleanup_interval > u64::MAX / 1000 {
            u64::MAX
        } else {
            config.stats_cleanup_interval * 1000
        };
        let mut shards: Vec<TcpReassembler> = Vec::new();
        let mut i: usize = 0;
        while i < count
            invariant
                0 <= i <= count,
                shards@.len() == i,
                forall|j: int|
                    0 <= j < shards@.len() ==> (#[trigger] shards@[j]).wf() && shards@[j].streams@.len() == 0
                        && shards@[j].max_gap == config.max_gap && shards@[j].max_streams
                        == config.max_streams_per_shard && shards@[j].max_segments == config.max_segments,
            decreases count - i,
        {
            let mut shard = TcpReassembler::new(config.max_segments, 65535, timeout_ms, interval_ms);
            shard.set_max_gap(config.max_gap);
            shard.set_max_streams(config.max_streams_per_shard);
            shards.push(shard);
            i += 1;
        }
        ShardedTcpReassembler { shards, shard_count: count, config }
    }

    /// The shard that a textual stream key hashes to.
    pub fn get_smart_shard_index(&self, stream_key: &str, packet: &DecodedPacket) -> (r: usize)
        requires
            self.wf(),
        ensures
            r == bytes_hash(stream_key.spec_bytes()) % (self.shard_count as int),
            r < self.shard_count,
            forall|k: FlowKey| stream_key.spec_bytes() == flow_key_text(k) ==> r == shard_of(k, self.shard_count as int),
    {
        (hash_bytes(stream_key.as_bytes()) % self.shard_count as u64) as usize
    }

    /// The shard that owns the flow `key`.
    pub fn shard_for(&self, key: &FlowKey) -> (r: usize)
        requires
            self.wf(),
        ensures
            r == shard_of(*key, self.shard_count as int),
            r < self.shard_count,
    {
        shard_index(key, self.shard_count)
    }

    /// Handles one decoded packet: anything but TCP gives nothing; a TCP
    /// packet goes to the shard that owns its flow, and no other shard
    /// changes.
    pub fn process_packet(&mut self, packet: &DecodedPacket) -> (r: Result<Option<Vec<u8>>, ReassembleError>)
        requires
            old(self).wf(),
        ensures
            r is Ok,
            sharded_step(*old(self), *packet, *final(self), r->Ok_0),
    {
        let key = match flow_key_of(packet) {
            Some(k) => k,
            None => {
                return Ok(None);
            },
        };
        let j = self.shard_for(&key);
        let r = self.shards[j].process_packet(packet);
        Ok(r)
    }

    /// Handles packets in order, one result each.
    pub fn process_packets(&mut self, packets: Vec<DecodedPacket>) -> (r: Result<Vec<Option<Vec<u8>>>, ReassembleError>)
        requires
            old(self).wf(),
        ensures
            final(self).wf(),
            r is Ok,
            r->Ok_0@.len() == packets@.len(),
            exists|ss: Seq<ShardedTcpReassembler>|
                ss.len() == packets@.len() + 1 && ss[0] == *old(self) && ss.last() == *final(self) && forall|i: int|
                    0 <= i < packets@.len() ==> #[trigger] sharded_step(ss[i], packets@[i], ss[i + 1], r->Ok_0@[i]),
    {
        let mut results: Vec<Option<Vec<u8>>> = Vec::new();
        let ghost mut ss: Seq<ShardedTcpReassembler> = seq![*self];
        let mut i: usize = 0;
        while i < packets.len()
            invariant
                self.wf(),
                0 <= i <= packets@.len(),
                results@.len() == i,
                ss.len() == i + 1,
                ss[0] == *old(self),
                ss[i as int] == *self,
                forall|x: int| 0 <= x < i ==> #[trigger] sharded_step(ss[x], packets@[x], ss[x + 1], results@[x]),
            decreases packets@.len() - i,
        {
            let r = self.process_packet(&packets[i]);
            let x = match r {
                Ok(x) => x,
                Err(_) => None,
            };
            let ghost prev = ss;
            results.push(x);
            proof {
                ss = prev.push(*self);
                assert forall|y: int| 0 <= y < i + 1 implies #[trigger] sharded_step(ss[y], packets@[y], ss[y + 1], results@[y]) by {
                    if y < i {
                        assert(ss[y] == prev[y] && ss[y + 1] == prev[y + 1]);
                    }
                }
            }
            i += 1;
        }
        assert(ss.last() == *self);
        assert(forall|x: int| 0 <= x < packets@.len() ==> #[trigger] sharded_step(ss[x], packets@[x], ss[x + 1], results@[x]));
        let out: Result<Vec<Option<Vec<u8>>>, ReassembleError> = Ok(results);
        assert(out->Ok_0@ == results@);
        out
    }

    /// Drops idle flows, and expired segments, in every shard.
    pub fn cleanup_all(&mut self, now: u64)
        requires
            old(self).wf(),
        ensures
            final(self).wf(),
            final(self).shard_count == old(self).shard_count,
            final(self).config == old(self).config,
            forall|j: int, i: int|
                0 <= j < final(self).shards@.len() && 0 <= i < final(self).shards@[j].streams@.len()
                    ==> !crate::defrag::older_than_spec(
                    #[trigger] final(self).shards@[j].streams@[i].last_seen,
                    now,
                    final(self).shards@[j].timeout_ms,
                ),
            forall|j: int| 0 <= j < final(self).shards@.len() ==> (#[trigger] final(self).shards@[j]).timeout_ms
                == old(self).shards@[j].timeout_ms,
    {
        let mut j: usize = 0;
        while j < self.shards.len()
            invariant
                self.wf(),
                self.shard_count == old(self).shard_count,
                self.config == old(self).config,
                0 <= j <= self.shards@.len(),
                self.shards@.len() == old(self).shards@.len(),
                forall|x: int| 0 <= x < self.shards@.len() ==> (#[trigger] self.shards@[x]).timeout_ms == old(self).shards@[x].timeout_ms,
                forall|x: int, i: int|
                    0 <= x < j && 0 <= i < self.shards@[x].streams@.len() ==> !crate::defrag::older_than_spec(
                        #[trigger] self.shards@[x].streams@[i].last_seen,
                        now,
                        self.shards@[x].timeout_ms,
                    ),
            decreases self.shards@.len() - j,
        {
            self.shards[j].cleanup_expired(now);
            j += 1;
        }
    }

    /// The number of flows each shard holds.
    pub fn get_shard_stats(&self) -> (r: Vec<usize>)
        ensures
            r@.len() == self.shards@.len(),
            forall|j: int| 0 <= j < r@.len() ==> r@[j] == (#[trigger] self.shards@[j]).streams@.len(),
    {
        let mut r: Vec<usize> = Vec::new();
        let mut j: usize = 0;
        while j < self.shards.len()
            invariant
                0 <= j <= self.shards@.len(),
                r@.len() == j,
                forall|x: int| 0 <= x < j ==> r@[x] == (#[trigger] self.shards@[x]).streams@.len(),
            decreases self.shards@.len() - j,
        {
            r.push(self.shards[j].get_stream_count());
            j += 1;
        }
        r
    }

    /// The shards that hold more than twice the mean number of flows.
    pub fn monitor_load_balance(&self) -> (r: Vec<usize>)
        requires
            self.wf(),
        ensures
            forall|x: int| 0 <= x < r@.len() ==> r@[x] < self.shards@.len(),
            forall|j: int|
                0 <= j < self.shards@.len() ==> (r@.contains(j as usize) <==> (#[trigger] self.shards@[j]).streams@.len()
                    > 2 * (sum_sat(self.shards@.map_values(|s: TcpReassembler| s.streams@.len() as usize)) / (
                self.shard_count as int))),
    {
        let counts = self.get_shard_stats();
        assert(counts@ =~= self.shards@.map_values(|s: TcpReassembler| s.streams@.len() as usize));
        overloaded_shards(&counts)
    }

    /// Healthy when no shard holds more flows than the configured cap.
    pub fn get_health_status(&self) -> (r: bool)
        ensures
            r == forall|j: int|
                0 <= j < self.shards@.len() ==> (#[trigger] self.shards@[j]).streams@.len()
                    <= self.config.max_streams_per_shard,
    {
        let mut j: usize = 0;
        while j < self.shards.len()
            invariant
                0 <= j <= self.shards@.len(),
                forall|x: int| 0 <= x < j ==> (#[trigger] self.shards@[x]).streams@.len() <= self.config.max_streams_per_shard,
            decreases self.shards@.len() - j,
        {
            if self.shards[j].get_stream_count() > self.config.max_streams_per_shard {
                return false;
            }
            j += 1;
        }
        true
    }

    /// The counters of the flow under `key`, from the shard that owns it.
    pub fn get_stream_stats(&self, key: &FlowKey) -> (r: Option<StreamStats>)
        requires
            self.wf(),
        ensures
            r is None <==> !has_flow(self.shards@[shard_of(*key, self.shard_count as int)].streams@, *key),
    {
        let j = self.shard_for(key);
        self.shards[j].get_stream_stats(key)
    }

    /// What the flow under `key` has delivered so far, from the shard that
    /// owns it.
    pub fn get_reassembled_data(&self, key: &FlowKey) -> (r: Option<Vec<u8>>)
        requires
            self.wf(),
        ensures
            r is Some ==> exists|i: int|
                0 <= i < self.shards@[shard_of(*key, self.shard_count as int)].streams@.len()
                    && (#[trigger] self.shards@[shard_of(*key, self.shard_count as int)].streams@[i]).key == *key
                    && r->Some_0@ == self.shards@[shard_of(*key, self.shard_count as int)].streams@[i].reassembled_data@,
            r is None ==> forall|i: int|
                0 <= i < self.shards@[shard_of(*key, self.shard_count as int)].streams@.len() && (#[trigger] self.shards@[shard_of(
                    *key,
                    self.shard_count as int,
                )].streams@[i]).key == *key ==> self.shards@[shard_of(
                    *key,
                    self.shard_count as int,
                )].streams@[i].reassembled_data@.len() == 0,
    {
        let j = self.shard_for(key);
        self.shards[j].get_reassembled_data(key)
    }

    /// The key and counters of every flow, shard by shard: each flow once.
    pub fn get_all_stats(&self) -> (r: Vec<(FlowKey, StreamStats)>)
        ensures
            forall|x: int| 0 <= x < r@.len() ==> is_flow_entry(self.shards@, #[trigger] r@[x]),
            r@.len() == total_flows(self.shards@),
            forall|j: int, i: int|
                0 <= j < self.shards@.len() && 0 <= i < self.shards@[j].streams@.len() ==> r@.contains(
                    #[trigger] self.shards@[j].streams@[i].key_stats(),
                ),
    {
        let mut r: Vec<(FlowKey, StreamStats)> = Vec::new();
        let mut j: usize = 0;
        while j < self.shards.len()
            invariant
                0 <= j <= self.shards@.len(),
                forall|x: int| 0 <= x < r@.len() ==> is_flow_entry(self.shards@, #[trigger] r@[x]),
                r@.len() == total_flows(self.shards@.take(j as int)),
                forall|a: int, b: int|
                    0 <= a < j && 0 <= b < self.shards@[a].streams@.len() ==> r@.contains(
                        #[trigger] self.shards@[a].streams@[b].key_stats(),
                    ),
            decreases self.shards@.len() - j,
        {
            let shard = &self.shards[j];
            let ghost start = r@;
            let mut i: usize = 0;
            while i < shard.streams.len()
                invariant
                    0 <= j < self.shards@.len(),
                    *shard == self.shards@[j as int],
                    0 <= i <= shard.streams@.len(),
                    forall|x: int| 0 <= x < r@.len() ==> is_flow_entry(self.shards@, #[trigger] r@[x]),
                    r@.len() == start.len() + i,
                    r@.subrange(0, start.len() as int) == start,
                    forall|b: int| 0 <= b < i ==> r@[start.len() + b] == #[trigger] self.shards@[j as int].streams@[b].key_stats(),
                decreases shard.streams@.len() - i,
            {
                let s = &shard.streams[i];
                let ghost before = r@;
                r.push((s.key, s.stats));
                proof {
                    assert(is_flow_entry(self.shards@, (s.key, s.stats))) by {
                        assert((s.key, s.stats) == self.shards@[j as int].streams@[i as int].key_stats());
                    }
                    assert forall|x: int| 0 <= x < r@.len() implies is_flow_entry(self.shards@, #[trigger] r@[x]) by {
                        if x < before.len() {
                            assert(r@[x] == before[x]);
                        }
                    }
                    assert(r@.subrange(0, start.len() as int) =~= before.subrange(0, start.len() as int));
                    assert forall|b: int| 0 <= b < i + 1 implies r@[start.len() + b] == #[trigger] self.shards@[j as int].streams@[b].key_stats() by {
                        if b < i {
                            assert(r@[start.len() + b] == before[start.len() + b]);
                        }
                    }
                }
                i += 1;
            }
            proof {
                assert(self.shards@.take(j + 1).drop_last() =~= self.shards@.take(j as int));
                assert forall|a: int, b: int|
                    0 <= a < j + 1 && 0 <= b < self.shards@[a].streams@.len() implies r@.contains(
                        #[trigger] self.shards@[a].streams@[b].key_stats(),
                    ) by {
                    if a < j {
                        assert(start.contains(self.shards@[a].streams@[b].key_stats()));
                        let w = choose|w: int| 0 <= w < start.len() && start[w] == self.shards@[a].streams@[b].key_stats();
                        assert(r@[w] == r@.subrange(0, start.len() as int)[w]);
                    } else {
                        assert(r@[start.len() + b] == self.shards@[a].streams@[b].key_stats());
                    }
                }
            }
            j += 1;
        }
        assert(self.shards@.take(j as int) =~= self.shards@);
        r
    }

    /// Drops every flow of every shard.
    pub fn shutdown(&mut self)
        requires
            old(self).wf(),
        ensures
            final(self).wf(),
            final(self).shard_count == old(self).shard_count,
            forall|j: int| 0 <= j < final(self).shards@.len() ==> (#[trigger] final(self).shards@[j]).streams@.len() == 0,
    {
        let mut j: usize = 0;
        while j < self.shards.len()
            invariant
                self.wf(),
                self.shard_count == old(self).shard_count,
                0 <= j <= self.shards@.len(),
                forall|x: int| 0 <= x < j ==> (#[trigger] self.shards@[x]).streams@.len() == 0,
            decreases self.shards@.len() - j,
        {
            self.shards[j].shutdown();
            j += 1;
        }
    }
}

/// The indices of the counts above twice their mean (the mean taken over
/// the saturated sum, rounded down).
pub fn overloaded_shards(counts: &Vec<usize>) -> (r: Vec<usize>)
    requires
        counts@.len() > 0,
    ensures
        forall|x: int| 0 <= x < r@.len() ==> r@[x] < counts@.len(),
        forall|j: int|
            0 <= j < counts@.len() ==> (r@.contains(j as usize) <==> (#[trigger] counts@[j]) > 2 * (sum_sat(counts@)
                / (counts@.len() as int))),
{
    let ghost cs = counts@;
    let mut total: usize = 0;
    let mut j: usize = 0;
    while j < counts.len()
        invariant
            0 <= j <= counts@.len(),
            counts@ == cs,
            total == sum_sat(cs.take(j as int)),
        decreases counts@.len() - j,
    {
        proof {
            assert(cs.take(j + 1).drop_last() =~= cs.take(j as int));
        }
        total = if total > usize::MAX - counts[j] {
            usize::MAX
        } else {
            total + counts[j]
        };
        j += 1;
    }
    assert(cs.take(j as int) =~= cs);
    let mean = total / counts.len();
    let mut r: Vec<usize> = Vec::new();
    let mut j: usize = 0;
    while j < counts.len()
        invariant
            0 <= j <= counts@.len(),
            counts@ == cs,
            cs.len() > 0,
            mean == total as int / (cs.len() as int),
            total == sum_sat(cs),
            forall|x: int| 0 <= x < r@.len() ==> r@[x] < j,
            forall|y: int| 0 <= y < j ==> (r@.contains(y as usize) <==> (#[trigger] cs[y]) > 2 * mean),
        decreases counts@.len() - j,
    {
        if counts[j] as u128 > 2 * mean as u128 {
            let ghost before = r@;
            r.push(j);
            proof {
                assert forall|y: int| 0 <= y < j + 1 implies (r@.contains(y as usize) <==> (#[trigger] cs[y]) > 2 * mean) by {
                    if y < j {
                        if before.contains(y as usize) {
                            let w = choose|w: int| 0 <= w < before.len() && before[w] == y as usize;
                            assert(r@[w] == y as usize);
                        }
                        if r@.contains(y as usize) {
                            let w = choose|w: int| 0 <= w < r@.len() && r@[w] == y as usize;
                            if w < before.len() {
                                assert(before[w] == y as usize);
                            }
                        }
                    } else {
                        assert(r@[before.len() as int] == j);
                    }
                }
            }
        } else {
            proof {
                assert forall|y: int| 0 <= y < j + 1 implies (r@.contains(y as usize) <==> (#[trigger] cs[y]) > 2 * mean) by {
                    if y == j {
                        if r@.contains(y as usize) {
                            let w = choose|w: int| 0 <= w < r@.len() && r@[w] == y as usize;
                            assert(r@[w] < j);
                        }
                    }
                }
            }
        }
        j += 1;
    }
    r
}

/// The number of flows held by all the shards.
pub open spec fn total_flows(shards: Seq<TcpReassembler>) -> int
    decreases shards.len(),
{
    if shards.len() == 0 {
        0
    } else {
        total_flows(shards.drop_last()) + shards.last().streams@.len()
    }
}

/// `e` is the key and counters of some flow of some shard.
pub open spec fn is_flow_entry(shards: Seq<TcpReassembler>, e: (FlowKey, StreamStats)) -> bool {
    exists|j: int, i: int|
        0 <= j < shards.len() && 0 <= i < shards[j].streams@.len() && e == (
        #[trigger] shards[j].streams@[i]).key_stats()
}

/// Healthy when no count is above the cap.
pub fn counts_within(counts: &Vec<usize>, max: usize) -> (r: bool)
    ensures
        r == forall|j: int| 0 <= j < counts@.len() ==> #[trigger] counts@[j] <= max,
{
    let mut j: usize = 0;
    while j < counts.len()
        invariant
            0 <= j <= counts@.len(),
            forall|x: int| 0 <= x < j ==> #[trigger] counts@[x] <= max,
        decreases counts@.len() - j,
    {
        if counts[j] > max {
            return false;
        }
        j += 1;
    }
    true
}

/// Counts added up, held at the largest `usize`.
pub open spec fn sum_sat(s: Seq<usize>) -> int
    decreases s.len(),
{
    if s.len() == 0 {
        0
    } else {
        let t = sum_sat(s.drop_last()) + s.last();
        if t > usize::MAX {
            usize::MAX as int
        } else {
            t
        }
    }
}

} // verus!
