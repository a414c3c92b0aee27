//! Reassembly of fragmented IPv4 datagrams.
use vstd::prelude::*;
use vstd::slice::slice_to_vec;
use crate::decode::{bumped, DecodedPacket, IpHeader, TransportProtocol};
use crate::error::{PacketError, ReassembleError};

verus! {

/// Time after which an incomplete fragment group is dropped, in milliseconds.
pub const FRAGMENT_TIMEOUT_MS: u64 = 30_000;
/// Largest fragment offset in bytes, and largest fragment length.
pub const MAX_FRAGMENT_SIZE: usize = 65535;
/// Default cap on the number of fragment groups held at once.
pub const MAX_FRAGMENT_GROUPS: usize = 10000;

/// Which bytes win when fragments overlap.
#[derive(Debug, Clone, Copy, PartialEq, Eq, Structural)]
pub enum FragmentPolicy {
    /// Keep what arrived first.
    First,
    /// Keep what arrived last.
    Last,
    /// Keep the strictly longer fragment; ties keep what is there.
    Longest,
}

/// One IP fragment: its offset in 8-byte units, its bytes, its MF flag and
/// the time it arrived.
#[derive(Debug)]
pub struct Fragment {
    pub offset: u16,
    pub data: Vec<u8>,
    pub more_fragments: bool,
    pub received_at: u64,
}

/// First byte covered by a fragment.
pub open spec fn frag_start(f: Fragment) -> int {
    f.offset * 8
}

/// One past the last byte covered by a fragment.
pub open spec fn frag_end(f: Fragment) -> int {
    f.offset * 8 + f.data@.len()
}

/// The number of 8-byte units that a fragment spans, rounded up.
pub open spec fn frag_units(f: Fragment) -> int {
    (f.data@.len() as int + 7) / 8
}

/// Two fragments start at the same offset or their byte ranges meet.
pub open spec fn conflict(a: Fragment, b: Fragment) -> bool {
    a.offset == b.offset || (frag_start(a) < frag_end(b) && frag_start(b) < frag_end(a))
}

impl Fragment {
    pub fn new(offset: u16, data: Vec<u8>, more_fragments: bool, received_at: u64) -> (r: Self)
        ensures
            r.offset == offset,
            r.data == data,
            r.more_fragments == more_fragments,
            r.received_at == received_at,
    {
        Fragment { offset, data, more_fragments, received_at }
    }

    /// The two fragments start together or share at least one byte.
    pub fn overlaps_with(&self, other: &Fragment) -> (r: bool)
        requires
            self.data@.len() <= 65535,
            other.data@.len() <= 65535,
        ensures
            r == conflict(*self, *other),
    {
        let s1 = self.offset as usize * 8;
        let e1 = s1 + self.data.len();
        let s2 = other.offset as usize * 8;
        let e2 = s2 + other.data.len();
        self.offset == other.offset || (s1 < e2 && s2 < e1)
    }

    /// The bytes shared by two fragments, as `[start, end)`.
    pub fn get_overlap(&self, other: &Fragment) -> (r: Option<(usize, usize)>)
        requires
            self.data@.len() <= 65535,
            other.data@.len() <= 65535,
        ensures
            r is Some <==> (frag_start(*self) < frag_end(*other) && frag_start(*other) < frag_end(
                *self,
            )),
            r is Some ==> r->Some_0.0 == if frag_start(*self) > frag_start(*other) {
                frag_start(*self)
            } else {
                frag_start(*other)
            },
            r is Some ==> r->Some_0.1 == if frag_end(*self) < frag_end(*other) {
                frag_end(*self)
            } else {
                frag_end(*other)
            },
    {
        let s1 = self.offset as usize * 8;
        let e1 = s1 + self.data.len();
        let s2 = other.offset as usize * 8;
        let e2 = s2 + other.data.len();
        if s1 < e2 && s2 < e1 {
            let start = if s1 > s2 { s1 } else { s2 };
            let end = if e1 < e2 { e1 } else { e2 };
            Some((start, end))
        } else {
            None
        }
    }
}

/// Fragments held in strictly increasing order of offset.
pub open spec fn frags_sorted(fs: Seq<Fragment>) -> bool {
    forall|i: int, j: int| 0 <= i < j < fs.len() ==> fs[i].offset < fs[j].offset
}

/// No two fragments conflict.
pub open spec fn frags_disjoint(fs: Seq<Fragment>) -> bool {
    forall|i: int, j: int| 0 <= i < j < fs.len() ==> !conflict(fs[i], fs[j])
}

/// Every fragment is at most the largest fragment length.
pub open spec fn frags_bounded(fs: Seq<Fragment>) -> bool {
    forall|i: int| 0 <= i < fs.len() ==> fs[i].data@.len() <= 65535
}

pub open spec fn frags_wf(fs: Seq<Fragment>) -> bool {
    frags_sorted(fs) && frags_disjoint(fs) && frags_bounded(fs)
}

/// The fragments that do not conflict with `f`.
pub open spec fn kept_with(fs: Seq<Fragment>, f: Fragment) -> Seq<Fragment> {
    fs.filter(|g: Fragment| !conflict(g, f))
}

/// The number of fragments that start before `offset`.
pub open spec fn count_below(fs: Seq<Fragment>, offset: u16) -> int {
    fs.filter(|g: Fragment| g.offset < offset).len() as int
}

/// `fs` with every fragment that conflicts with `f` taken out and `f` put in
/// its place in offset order.
pub open spec fn place(fs: Seq<Fragment>, f: Fragment) -> Seq<Fragment> {
    let kept = kept_with(fs, f);
    kept.insert(count_below(kept, f.offset), f)
}

/// The overlap policy lets `f` into the group `fs`.
pub open spec fn policy_accepts(policy: FragmentPolicy, fs: Seq<Fragment>, f: Fragment) -> bool {
    match policy {
        FragmentPolicy::First => forall|i: int| 0 <= i < fs.len() ==> !conflict(#[trigger] fs[i], f),
        FragmentPolicy::Last => true,
        FragmentPolicy::Longest => forall|i: int|
            0 <= i < fs.len() && conflict(#[trigger] fs[i], f) ==> f.data@.len() > fs[i].data@.len(),
    }
}

/// The group holds every byte from 0 on without a hole, and its last
/// fragment, and only that one, says that no more follow.
pub open spec fn frags_complete(fs: Seq<Fragment>) -> bool {
    &&& fs.len() > 0
    &&& fs[0].offset == 0
    &&& !fs.last().more_fragments
    &&& forall|i: int|
        0 <= i < fs.len() - 1 ==> (#[trigger] fs[i]).more_fragments && fs[i].offset + frag_units(fs[i])
            == fs[i + 1].offset
}

/// `n` zero bytes.
pub open spec fn zeros(n: int) -> Seq<u8> {
    Seq::new(if n > 0 { n as nat } else { 0 }, |i: int| 0u8)
}

/// The bytes of the fragments laid at their offsets, holes filled with zeros.
pub open spec fn assemble(fs: Seq<Fragment>) -> Seq<u8>
    decreases fs.len(),
{
    if fs.len() == 0 {
        Seq::empty()
    } else {
        let prev = assemble(fs.drop_last());
        prev + zeros(frag_start(fs.last()) - prev.len()) + fs.last().data@
    }
}

pub(crate) proof fn lemma_filter_push<A>(s: Seq<A>, x: A, p: spec_fn(A) -> bool)
    ensures
        s.push(x).filter(p) == if p(x) {
            s.filter(p).push(x)
        } else {
            s.filter(p)
        },
{
    reveal(Seq::filter);
    assert(s.push(x).drop_last() =~= s);
    assert(s.push(x).last() == x);
}

/// More than `timeout` has passed from `then` to `now`.
pub open spec fn older_than_spec(then: u64, now: u64, timeout: u64) -> bool {
    now > then && now - then > timeout
}

pub fn older_than(then: u64, now: u64, timeout: u64) -> (r: bool)
    ensures
        r == older_than_spec(then, now, timeout),
{
    now > then && now - then > timeout
}

/// A group expires when it has waited too long since its last update or
/// holds a fragment older than the timeout.
pub open spec fn group_expired(g: FragmentGroup, now: u64, timeout: u64) -> bool {
    older_than_spec(g.last_update, now, timeout) || exists|k: int|
        0 <= k < g.fragments@.len() && older_than_spec(#[trigger] g.fragments@[k].received_at, now, timeout)
}

/// A fragment group: the fragments of one datagram, by offset.
#[derive(Debug)]
pub struct FragmentGroup {
    pub fragments: Vec<Fragment>,
    pub first_seen: u64,
    pub last_update: u64,
    pub policy: FragmentPolicy,
    pub source_ip: u32,
    pub dest_ip: u32,
    pub identification: u16,
    pub protocol: u8,
}

impl FragmentGroup {
    pub open spec fn wf(&self) -> bool {
        frags_wf(self.fragments@)
    }

    pub fn new(source_ip: u32, dest_ip: u32, identification: u16, protocol: u8, policy: FragmentPolicy, now: u64) -> (r: Self)
        ensures
            r.wf(),
            r.fragments@.len() == 0,
            r.source_ip == source_ip,
            r.dest_ip == dest_ip,
            r.identification == identification,
            r.protocol == protocol,
            r.policy == policy,
            r.first_seen == now,
            r.last_update == now,
    {
        FragmentGroup {
            fragments: Vec::new(),
            first_seen: now,
            last_update: now,
            policy,
            source_ip,
            dest_ip,
            identification,
            protocol,
        }
    }

    /// The overlap policy lets `fragment` into the group.
    pub fn accepts(&self, fragment: &Fragment) -> (r: bool)
        requires
            self.wf(),
            fragment.data@.len() <= 65535,
        ensures
            r == policy_accepts(self.policy, self.fragments@, *fragment),
    {
        let fs = &self.fragments;
        let mut i: usize = 0;
        while i < fs.len()
            invariant
                0 <= i <= fs@.len(),
                self.wf(),
                fs@ == self.fragments@,
                fragment.data@.len() <= 65535,
                match self.policy {
                    FragmentPolicy::First => forall|k: int| 0 <= k < i ==> !conflict(#[trigger] fs@[k], *fragment),
                    FragmentPolicy::Last => true,
                    FragmentPolicy::Longest => forall|k: int|
                        0 <= k < i && conflict(#[trigger] fs@[k], *fragment) ==> fragment.data@.len() > fs@[k].data@.len(),
                },
            decreases fs@.len() - i,
        {
            let g = &fs[i];
            if g.overlaps_with(fragment) {
                match self.policy {
                    FragmentPolicy::First => {
                        return false;
                    },
                    FragmentPolicy::Last => {},
                    FragmentPolicy::Longest => {
                        if fragment.data.len() <= g.data.len() {
                            return false;
                        }
                    },
                }
            }
            i += 1;
        }
        true
    }

    /// Adds a fragment under the group's overlap policy: when the policy
    /// lets it in, every fragment it conflicts with leaves and it takes its
    /// place by offset; otherwise the group is left as it was.
    pub fn add_fragment(&mut self, fragment: Fragment) -> (r: bool)
        requires
            old(self).wf(),
            fragment.data@.len() <= 65535,
        ensures
            final(self).wf(),
            r == policy_accepts(old(self).policy, old(self).fragments@, fragment),
            r ==> final(self).fragments@ == place(old(self).fragments@, fragment),
            !r ==> *final(self) == *old(self),
            final(self).policy == old(self).policy,
            final(self).first_seen == old(self).first_seen,
            final(self).last_update == old(self).last_update,
            final(self).source_ip == old(self).source_ip,
            final(self).dest_ip == old(self).dest_ip,
            final(self).identification == old(self).identification,
            final(self).protocol == old(self).protocol,
    {
        if !self.accepts(&fragment) {
            assert(*self == *old(self));
            return false;
        }
        let mut rest: Vec<Fragment> = Vec::new();
        std::mem::swap(&mut rest, &mut self.fragments);
        let ghost orig = rest@;
        let n = rest.len();
        let mut kept: Vec<Fragment> = Vec::new();
        let mut pos: usize = 0;
        let mut i: usize = 0;
        while i < n
            invariant
                0 <= i <= n,
                n == orig.len(),
                frags_wf(orig),
                fragment.data@.len() <= 65535,
                rest@ == orig.subrange(i as int, n as int),
                kept@ == kept_with(orig.take(i as int), fragment),
                pos == count_below(kept@, fragment.offset),
                pos <= kept@.len(),
                frags_wf(kept@),
                forall|k: int| 0 <= k < kept@.len() ==> !conflict(#[trigger] kept@[k], fragment),
                forall|k: int| 0 <= k < kept@.len() ==> ((#[trigger] kept@[k]).offset < fragment.offset <==> k < pos),
                forall|k: int, j: int|
                    0 <= k < kept@.len() && i <= j < n ==> (#[trigger] kept@[k]).offset < (#[trigger] orig[j]).offset
                        && !conflict(kept@[k], orig[j]),
            decreases n - i,
        {
            let g = rest.remove(0);
            proof {
                assert(g == orig[i as int]);
                assert(orig.subrange(i as int, n as int).remove(0) =~= orig.subrange(i + 1, n as int));
                assert(orig.take(i + 1) =~= orig.take(i as int).push(g));
                lemma_filter_push(orig.take(i as int), g, |h: Fragment| !conflict(h, fragment));
            }
            if !g.overlaps_with(&fragment) {
                let ghost before = kept@;
                if g.offset < fragment.offset {
                    proof {
                        if kept@.len() > 0 {
                            let last = kept@.len() - 1;
                            assert(kept@[last].offset < orig[i as int].offset);
                            assert(last < pos);
                        }
                    }
                    pos = pos + 1;
                }
                kept.push(g);
                proof {
                    lemma_filter_push(before, g, |h: Fragment| h.offset < fragment.offset);
                }
            }
            i += 1;
        }
        proof {
            assert(orig.take(n as int) =~= orig);
        }
        let ghost kept_view = kept@;
        kept.insert(pos, fragment);
        proof {
            let s2 = kept@;
            assert(s2 == kept_view.insert(pos as int, fragment));
            assert forall|a: int, b: int| 0 <= a < b < s2.len() implies s2[a].offset < s2[b].offset && !conflict(s2[a], s2[b]) by {
                if a < pos && b < pos {
                } else if a < pos && b == pos {
                } else if a < pos {
                    assert(s2[b] == kept_view[b - 1]);
                } else if a == pos {
                    assert(s2[b] == kept_view[b - 1]);
                    assert(kept_view[b - 1].offset >= fragment.offset);
                } else {
                    assert(s2[a] == kept_view[a - 1]);
                    assert(s2[b] == kept_view[b - 1]);
                }
            }
            assert forall|a: int| 0 <= a < s2.len() implies s2[a].data@.len() <= 65535 by {
                if a < pos {
                } else if a == pos {
                } else {
                    assert(s2[a] == kept_view[a - 1]);
                }
            }
        }
        self.fragments = kept;
        true
    }

    /// The group holds a whole datagram.
    pub fn is_complete(&self) -> (r: bool)
        requires
            self.wf(),
        ensures
            r == frags_complete(self.fragments@),
    {
        let fs = &self.fragments;
        let n = fs.len();
        if n == 0 {
            return false;
        }
        if fs[0].offset != 0 || fs[n - 1].more_fragments {
            return false;
        }
        let mut i: usize = 0;
        while i + 1 < n
            invariant
                n == fs@.len(),
                n > 0,
                0 <= i < n,
                fs@ == self.fragments@,
                self.wf(),
                forall|k: int|
                    0 <= k < i ==> (#[trigger] fs@[k]).more_fragments && fs@[k].offset + frag_units(fs@[k])
                        == fs@[k + 1].offset,
            decreases n - i,
        {
            let f = &fs[i];
            if !f.more_fragments {
                return false;
            }
            let units = (f.data.len() + 7) / 8;
            if f.offset as usize + units != fs[i + 1].offset as usize {
                return false;
            }
            i += 1;
        }
        true
    }

    /// Lays the fragments of a complete group out at their offsets.
    pub fn reassemble(&self) -> (r: Result<Vec<u8>, PacketError>)
        requires
            self.wf(),
        ensures
            r is Ok <==> frags_complete(self.fragments@),
            r is Ok ==> r->Ok_0@ == assemble(self.fragments@),
            r is Err ==> r->Err_0 == PacketError::IncompleteFragment,
    {
        if !self.is_complete() {
            return Err(PacketError::IncompleteFragment);
        }
        let fs = &self.fragments;
        let n = fs.len();
        let mut out: Vec<u8> = Vec::new();
        let mut i: usize = 0;
        while i < n
            invariant
                n == fs@.len(),
                0 <= i <= n,
                fs@ == self.fragments@,
                self.wf(),
                out@ == assemble(fs@.take(i as int)),
                i > 0 ==> out@.len() == frag_end(fs@[i - 1]),
                i == 0 ==> out@.len() == 0,
            decreases n - i,
        {
            let ghost prev = out@;
            let f = &fs[i];
            let start = f.offset as usize * 8;
            proof {
                if i > 0 {
                    assert(!conflict(fs@[i - 1], fs@[i as int]));
                    assert(fs@[i - 1].offset < fs@[i as int].offset);
                }
            }
            while out.len() < start
                invariant
                    prev.len() <= start,
                    start == frag_start(fs@[i as int]),
                    out@.len() <= start,
                    out@ == prev + zeros(out@.len() - prev.len()),
                decreases start - out@.len(),
            {
                proof {
                    assert(prev + zeros(out@.len() + 1 - prev.len()) =~= (prev + zeros(out@.len() - prev.len())).push(0u8));
                }
                out.push(0u8);
            }
            let ghost padded = out@;
            assert(padded == prev + zeros(frag_start(fs@[i as int]) - prev.len()));
            let mut j: usize = 0;
            while j < f.data.len()
                invariant
                    0 <= j <= f.data@.len(),
                    f.data@.len() <= 65535,
                    padded.len() == start,
                    out@ == padded + f.data@.take(j as int),
                decreases f.data@.len() - j,
            {
                proof {
                    assert(padded + f.data@.take(j + 1) =~= (padded + f.data@.take(j as int)).push(f.data@[j as int]));
                }
                out.push(f.data[j]);
                j += 1;
            }
            proof {
                assert(f.data@.take(j as int) =~= f.data@);
                assert(fs@.take(i + 1).drop_last() =~= fs@.take(i as int));
                assert(fs@.take(i + 1).last() == fs@[i as int]);
            }
            i += 1;
        }
        proof {
            assert(fs@.take(n as int) =~= fs@);
        }
        Ok(out)
    }

    pub fn update_last_seen(&mut self, now: u64)
        ensures
            final(self).last_update == now,
            final(self).fragments == old(self).fragments,
            final(self).first_seen == old(self).first_seen,
            final(self).policy == old(self).policy,
            final(self).source_ip == old(self).source_ip,
            final(self).dest_ip == old(self).dest_ip,
            final(self).identification == old(self).identification,
            final(self).protocol == old(self).protocol,
    {
        self.last_update = now;
    }

    /// The group has waited longer than `timeout` since its last fragment,
    /// or holds a fragment older than `timeout`.
    pub fn is_expired(&self, now: u64, timeout: u64) -> (r: bool)
        ensures
            r == group_expired(*self, now, timeout),
    {
        if older_than(self.last_update, now, timeout) {
            return true;
        }
        let fs = &self.fragments;
        let mut i: usize = 0;
        while i < fs.len()
            invariant
                0 <= i <= fs@.len(),
                fs@ == self.fragments@,
                !older_than_spec(self.last_update, now, timeout),
                forall|k: int| 0 <= k < i ==> !older_than_spec((#[trigger] fs@[k]).received_at, now, timeout),
            decreases fs@.len() - i,
        {
            if older_than(fs[i].received_at, now, timeout) {
                return true;
            }
            i += 1;
        }
        false
    }
}

/// Counters of a defragmenter.
#[derive(Debug, Clone, Copy, Default)]
pub struct DefragStats {
    pub total_fragments: usize,
    pub total_length: usize,
    pub expired_groups: usize,
    pub current_groups: usize,
    pub reassembled_packets: usize,
    pub overlapping_fragments: usize,
}

/// Every counter is zero.
pub open spec fn defrag_stats_zero(s: DefragStats) -> bool {
    s.total_fragments == 0 && s.total_length == 0 && s.expired_groups == 0 && s.current_groups == 0
        && s.reassembled_packets == 0 && s.overlapping_fragments == 0
}

impl DefragStats {
    pub fn new() -> (r: Self)
        ensures
            r.total_fragments == 0,
            r.total_length == 0,
            r.expired_groups == 0,
            r.current_groups == 0,
            r.reassembled_packets == 0,
            r.overlapping_fragments == 0,
    {
        DefragStats {
            total_fragments: 0,
            total_length: 0,
            expired_groups: 0,
            current_groups: 0,
            reassembled_packets: 0,
            overlapping_fragments: 0,
        }
    }
}

/// A copy of the counters, with the number of groups held.
#[derive(Debug, Clone, Copy)]
pub struct DefragStatsSnapshot {
    pub total_fragments: usize,
    pub total_length: usize,
    pub expired_groups: usize,
    pub current_groups: usize,
    pub reassembled_packets: usize,
    pub overlapping_fragments: usize,
}

/// The identity of a datagram: source, destination and identification.
pub type GroupKey = (u32, u32, u16);

pub open spec fn key_of(g: FragmentGroup) -> GroupKey {
    (g.source_ip, g.dest_ip, g.identification)
}

/// No two groups share a key.
pub open spec fn keys_unique(gs: Seq<FragmentGroup>) -> bool {
    forall|i: int, j: int| 0 <= i < j < gs.len() ==> key_of(gs[i]) != key_of(gs[j])
}

/// Some group holds the key.
pub open spec fn has_key(gs: Seq<FragmentGroup>, k: GroupKey) -> bool {
    exists|i: int| 0 <= i < gs.len() && key_of(#[trigger] gs[i]) == k
}

/// The fragments held under a key; none where no group holds it.
pub open spec fn frags_at(gs: Seq<FragmentGroup>, k: GroupKey) -> Seq<Fragment> {
    if has_key(gs, k) {
        gs[choose|i: int| 0 <= i < gs.len() && key_of(#[trigger] gs[i]) == k].fragments@
    } else {
        Seq::empty()
    }
}

proof fn lemma_frags_at(gs: Seq<FragmentGroup>, k: GroupKey, j: int)
    requires
        keys_unique(gs),
        0 <= j < gs.len(),
        key_of(gs[j]) == k,
    ensures
        has_key(gs, k),
        frags_at(gs, k) == gs[j].fragments@,
{
    let c = choose|i: int| 0 <= i < gs.len() && key_of(#[trigger] gs[i]) == k;
    assert(key_of(gs[c]) == k);
    if c < j {
        assert(key_of(gs[c]) != key_of(gs[j]));
    } else if c > j {
        assert(key_of(gs[j]) != key_of(gs[c]));
    }
}

/// The groups left after dropping those expired at `now`.
pub open spec fn live_groups(gs: Seq<FragmentGroup>, now: u64, timeout: u64) -> Seq<FragmentGroup> {
    gs.filter(|g: FragmentGroup| !group_expired(g, now, timeout))
}

/// The packet is an IP fragment.
pub open spec fn is_fragment(p: DecodedPacket) -> bool {
    p.ip_header.fragment_offset != 0 || p.ip_header.more_fragments
}

/// The packet carries an IP fragment rather than a whole datagram.
pub fn is_fragment_packet(p: &DecodedPacket) -> (r: bool)
    ensures
        r == is_fragment(*p),
{
    p.ip_header.fragment_offset != 0 || p.ip_header.more_fragments
}

/// The bytes that the transport layer of a packet carries.
pub open spec fn transport_payload(t: TransportProtocol) -> Seq<u8> {
    match t {
        TransportProtocol::TCP { payload, .. } => payload@,
        TransportProtocol::UDP { payload, .. } => payload@,
    }
}

/// A fragment the defragmenter takes: offset and length in range, TCP or UDP.
pub open spec fn fragment_valid(p: DecodedPacket) -> bool {
    &&& p.ip_header.fragment_offset * 8 <= 65535
    &&& transport_payload(p.protocol).len() <= 65535
    &&& (p.ip_header.protocol == 6 || p.ip_header.protocol == 17)
}

/// Two packets hold the same values.
pub open spec fn same_packet(a: DecodedPacket, b: DecodedPacket) -> bool {
    &&& a.ip_header == b.ip_header
    &&& a.timestamp == b.timestamp
    &&& a.payload@ == b.payload@
    &&& same_transport(a.protocol, b.protocol)
}

pub open spec fn same_transport(a: TransportProtocol, b: TransportProtocol) -> bool {
    match (a, b) {
        (
            TransportProtocol::TCP { seq: s1, ack: a1, flags: f1, window: w1, src_port: p1, dst_port: d1, payload: x1 },
            TransportProtocol::TCP { seq: s2, ack: a2, flags: f2, window: w2, src_port: p2, dst_port: d2, payload: x2 },
        ) => s1 == s2 && a1 == a2 && f1 == f2 && w1 == w2 && p1 == p2 && d1 == d2 && x1@ == x2@,
        (
            TransportProtocol::UDP { src_port: p1, dst_port: d1, payload: x1 },
            TransportProtocol::UDP { src_port: p2, dst_port: d2, payload: x2 },
        ) => p1 == p2 && d1 == d2 && x1@ == x2@,
        _ => false,
    }
}

/// Copies a byte vector.
pub fn copy_bytes(v: &Vec<u8>) -> (r: Vec<u8>)
    ensures
        r@ == v@,
{
    slice_to_vec(v.as_slice())
}

/// Copies a transport layer.
pub fn copy_transport(t: &TransportProtocol) -> (r: TransportProtocol)
    ensures
        same_transport(r, *t),
{
    match t {
        TransportProtocol::TCP { seq, ack, flags, window, src_port, dst_port, payload } => TransportProtocol::TCP {
            seq: *seq,
            ack: *ack,
            flags: *flags,
            window: *window,
            src_port: *src_port,
            dst_port: *dst_port,
            payload: copy_bytes(payload),
        },
        TransportProtocol::UDP { src_port, dst_port, payload } => TransportProtocol::UDP {
            src_port: *src_port,
            dst_port: *dst_port,
            payload: copy_bytes(payload),
        },
    }
}

/// Copies a decoded packet.
pub fn copy_packet(p: &DecodedPacket) -> (r: DecodedPacket)
    ensures
        same_packet(r, *p),
{
    DecodedPacket {
        ip_header: p.ip_header,
        protocol: copy_transport(&p.protocol),
        timestamp: p.timestamp,
        payload: copy_bytes(&p.payload),
    }
}

/// The bytes carried by the transport layer of a packet.
pub fn transport_bytes(t: &TransportProtocol) -> (r: Vec<u8>)
    ensures
        r@ == transport_payload(*t),
{
    match t {
        TransportProtocol::TCP { payload, .. } => copy_bytes(payload),
        TransportProtocol::UDP { payload, .. } => copy_bytes(payload),
    }
}

/// `a + b`, held at the largest value.
pub open spec fn sat_add(a: usize, b: int) -> usize {
    if a + b > usize::MAX {
        usize::MAX
    } else {
        (a + b) as usize
    }
}

pub fn saturating_add(a: usize, b: usize) -> (r: usize)
    ensures
        r == sat_add(a, b as int),
{
    if a > usize::MAX - b {
        usize::MAX
    } else {
        a + b
    }
}

/// Reassembles fragmented IPv4 datagrams, one group per datagram identity.
#[derive(Debug)]
pub struct IpDefragmenter {
    pub groups: Vec<FragmentGroup>,
    pub stats: DefragStats,
    pub policy: FragmentPolicy,
    pub max_groups: usize,
    pub timeout_ms: u64,
}

impl IpDefragmenter {
    pub open spec fn wf(&self) -> bool {
        &&& keys_unique(self.groups@)
        &&& forall|i: int| 0 <= i < self.groups@.len() ==> (#[trigger] self.groups@[i]).wf()
        &&& forall|i: int| 0 <= i < self.groups@.len() ==> (#[trigger] self.groups@[i]).policy == self.policy
    }

    pub fn new() -> (r: Self)
        ensures
            r.wf(),
            r.groups@.len() == 0,
            r.policy == FragmentPolicy::First,
            defrag_stats_zero(r.stats),
            r.max_groups == MAX_FRAGMENT_GROUPS,
            r.timeout_ms == FRAGMENT_TIMEOUT_MS,
    {
        Self::with_policy(FragmentPolicy::First)
    }

    pub fn with_policy(policy: FragmentPolicy) -> (r: Self)
        ensures
            r.wf(),
            r.groups@.len() == 0,
            r.policy == policy,
            r.max_groups == MAX_FRAGMENT_GROUPS,
            r.timeout_ms == FRAGMENT_TIMEOUT_MS,
            defrag_stats_zero(r.stats),
    {
        IpDefragmenter {
            groups: Vec::new(),
            stats: DefragStats::new(),
            policy,
            max_groups: MAX_FRAGMENT_GROUPS,
            timeout_ms: FRAGMENT_TIMEOUT_MS,
        }
    }

    pub fn set_max_groups(&mut self, max_groups: usize)
        ensures
            final(self).max_groups == max_groups,
            final(self).groups == old(self).groups,
            final(self).stats == old(self).stats,
            final(self).policy == old(self).policy,
            final(self).timeout_ms == old(self).timeout_ms,
    {
        self.max_groups = max_groups;
    }

    /// Drops every group, and the counters.
    pub fn clear(&mut self)
        ensures
            final(self).wf(),
            final(self).groups@.len() == 0,
            defrag_stats_zero(final(self).stats),
            final(self).policy == old(self).policy,
            final(self).max_groups == old(self).max_groups,
            final(self).timeout_ms == old(self).timeout_ms,
    {
        self.groups = Vec::new();
        self.stats = DefragStats::new();
    }

    /// The counters and the number of groups held.
    pub fn get_stats(&self) -> (r: DefragStatsSnapshot)
        ensures
            r.total_fragments == self.stats.total_fragments,
            r.total_length == self.stats.total_length,
            r.expired_groups == self.stats.expired_groups,
            r.current_groups == self.groups@.len(),
            r.reassembled_packets == self.stats.reassembled_packets,
            r.overlapping_fragments == self.stats.overlapping_fragments,
    {
        DefragStatsSnapshot {
            total_fragments: self.stats.total_fragments,
            total_length: self.stats.total_length,
            expired_groups: self.stats.expired_groups,
            current_groups: self.groups.len(),
            reassembled_packets: self.stats.reassembled_packets,
            overlapping_fragments: self.stats.overlapping_fragments,
        }
    }

    /// Drops the groups expired at `now` and counts them.
    pub fn cleanup_expired_groups(&mut self, now: u64)
        requires
            old(self).wf(),
        ensures
            final(self).wf(),
            final(self).groups@ == live_groups(old(self).groups@, now, old(self).timeout_ms),
            final(self).stats.expired_groups == sat_add(
                old(self).stats.expired_groups,
                old(self).groups@.len() - final(self).groups@.len(),
            ),
            final(self).stats.total_fragments == old(self).stats.total_fragments,
            final(self).stats.total_length == old(self).stats.total_length,
            final(self).stats.reassembled_packets == old(self).stats.reassembled_packets,
            final(self).stats.overlapping_fragments == old(self).stats.overlapping_fragments,
            final(self).policy == old(self).policy,
            final(self).max_groups == old(self).max_groups,
            final(self).timeout_ms == old(self).timeout_ms,
    {
        let mut rest: Vec<FragmentGroup> = Vec::new();
        std::mem::swap(&mut rest, &mut self.groups);
        let ghost orig = rest@;
        let n = rest.len();
        let timeout = self.timeout_ms;
        let mut kept: Vec<FragmentGroup> = Vec::new();
        let mut i: usize = 0;
        while i < n
            invariant
                0 <= i <= n,
                n == orig.len(),
                keys_unique(orig),
                forall|k: int| 0 <= k < orig.len() ==> (#[trigger] orig[k]).wf(),
                forall|k: int| 0 <= k < orig.len() ==> (#[trigger] orig[k]).policy == self.policy,
                forall|k: int| 0 <= k < kept@.len() ==> (#[trigger] kept@[k]).policy == self.policy,
                rest@ == orig.subrange(i as int, n as int),
                kept@ == live_groups(orig.take(i as int), now, timeout),
                kept@.len() <= i,
                keys_unique(kept@),
                forall|k: int| 0 <= k < kept@.len() ==> (#[trigger] kept@[k]).wf(),
                forall|k: int, j: int|
                    0 <= k < kept@.len() && i <= j < n ==> key_of(#[trigger] kept@[k]) != key_of(#[trigger] orig[j]),
                forall|k: int| 0 <= k < kept@.len() ==> exists|j: int| 0 <= j < i && #[trigger] kept@[k] == orig[j],
            decreases n - i,
        {
            let g = rest.remove(0);
            proof {
                assert(g == orig[i as int]);
                assert(orig.subrange(i as int, n as int).remove(0) =~= orig.subrange(i + 1, n as int));
                assert(orig.take(i + 1) =~= orig.take(i as int).push(g));
                lemma_filter_push(orig.take(i as int), g, |h: FragmentGroup| !group_expired(h, now, timeout));
            }
            if !g.is_expired(now, timeout) {
                let ghost before = kept@;
                kept.push(g);
                proof {
                    assert forall|k: int| 0 <= k < kept@.len() implies exists|j: int| 0 <= j < i + 1 && #[trigger] kept@[k] == orig[j] by {
                        if k < before.len() {
                            assert(kept@[k] == before[k]);
                        } else {
                            assert(kept@[k] == orig[i as int]);
                        }
                    }
                }
            }
            i += 1;
        }
        proof {
            assert(orig.take(n as int) =~= orig);
        }
        let dropped = n - kept.len();
        self.groups = kept;
        self.stats.expired_groups = saturating_add(self.stats.expired_groups, dropped);
    }

    /// The index of the group that holds `key`, if any.
    pub fn find_group(&self, key: GroupKey) -> (r: Option<usize>)
        ensures
            r is Some ==> r->Some_0 < self.groups@.len() && key_of(self.groups@[r->Some_0 as int]) == key,
            r is None ==> !has_key(self.groups@, key),
    {
        let mut i: usize = 0;
        while i < self.groups.len()
            invariant
                0 <= i <= self.groups@.len(),
                forall|k: int| 0 <= k < i ==> key_of(#[trigger] self.groups@[k]) != key,
            decreases self.groups@.len() - i,
        {
            let g = &self.groups[i];
            if g.source_ip == key.0 && g.dest_ip == key.1 && g.identification == key.2 {
                return Some(i);
            }
            i += 1;
        }
        None
    }

    /// The packet may enter a fragment group.
    pub fn validate_fragment_packet(&self, packet: &DecodedPacket) -> (r: bool)
        ensures
            r == fragment_valid(*packet),
    {
        let len = match &packet.protocol {
            TransportProtocol::TCP { payload, .. } => payload.len(),
            TransportProtocol::UDP { payload, .. } => payload.len(),
        };
        packet.ip_header.fragment_offset as usize * 8 <= MAX_FRAGMENT_SIZE && len <= MAX_FRAGMENT_SIZE
            && (packet.ip_header.protocol == 6 || packet.ip_header.protocol == 17)
    }
}

proof fn lemma_update_other_keys(gs: Seq<FragmentGroup>, i: int, g: FragmentGroup)
    requires
        keys_unique(gs),
        0 <= i < gs.len(),
        key_of(g) == key_of(gs[i]),
    ensures
        keys_unique(gs.update(i, g)),
        has_key(gs.update(i, g), key_of(g)),
        frags_at(gs.update(i, g), key_of(g)) == g.fragments@,
        forall|k: GroupKey|
            k != key_of(g) ==> has_key(gs.update(i, g), k) == has_key(gs, k) && frags_at(gs.update(i, g), k)
                == frags_at(gs, k),
{
    let ng = gs.update(i, g);
    assert(keys_unique(ng)) by {
        assert forall|a: int, b: int| 0 <= a < b < ng.len() implies key_of(ng[a]) != key_of(ng[b]) by {
            if a == i {
                assert(key_of(ng[a]) == key_of(gs[a]));
            } else if b == i {
                assert(key_of(ng[b]) == key_of(gs[b]));
            }
        }
    }
    lemma_frags_at(ng, key_of(g), i);
    assert forall|k: GroupKey| k != key_of(g) implies has_key(ng, k) == has_key(gs, k) && frags_at(ng, k)
        == frags_at(gs, k) by {
        if has_key(gs, k) {
            let j = choose|j: int| 0 <= j < gs.len() && key_of(#[trigger] gs[j]) == k;
            assert(j != i);
            assert(ng[j] == gs[j]);
            lemma_frags_at(gs, k, j);
            lemma_frags_at(ng, k, j);
        } else if has_key(ng, k) {
            let j = choose|j: int| 0 <= j < ng.len() && key_of(#[trigger] ng[j]) == k;
            assert(j != i);
            assert(ng[j] == gs[j]);
        }
    }
}

proof fn lemma_remove_other_keys(gs: Seq<FragmentGroup>, i: int)
    requires
        keys_unique(gs),
        0 <= i < gs.len(),
    ensures
        keys_unique(gs.remove(i)),
        !has_key(gs.remove(i), key_of(gs[i])),
        forall|k: GroupKey|
            k != key_of(gs[i]) ==> has_key(gs.remove(i), k) == has_key(gs, k) && frags_at(gs.remove(i), k)
                == frags_at(gs, k),
{
    let ng = gs.remove(i);
    assert forall|j: int| 0 <= j < ng.len() implies #[trigger] ng[j] == (if j < i { gs[j] } else { gs[j + 1] }) by {}
    assert(keys_unique(ng)) by {
        assert forall|a: int, b: int| 0 <= a < b < ng.len() implies key_of(ng[a]) != key_of(ng[b]) by {
            let a2 = if a < i { a } else { a + 1 };
            let b2 = if b < i { b } else { b + 1 };
            assert(ng[a] == gs[a2]);
            assert(ng[b] == gs[b2]);
        }
    }
    if has_key(ng, key_of(gs[i])) {
        let j = choose|j: int| 0 <= j < ng.len() && key_of(#[trigger] ng[j]) == key_of(gs[i]);
        let j2 = if j < i { j } else { j + 1 };
        assert(ng[j] == gs[j2]);
    }
    assert forall|k: GroupKey| k != key_of(gs[i]) implies has_key(ng, k) == has_key(gs, k) && frags_at(ng, k)
        == frags_at(gs, k) by {
        if has_key(gs, k) {
            let j = choose|j: int| 0 <= j < gs.len() && key_of(#[trigger] gs[j]) == k;
            assert(j != i);
            let j2 = if j < i { j } else { j - 1 };
            assert(ng[j2] == gs[j]);
            lemma_frags_at(gs, k, j);
            lemma_frags_at(ng, k, j2);
        } else if has_key(ng, k) {
            let j = choose|j: int| 0 <= j < ng.len() && key_of(#[trigger] ng[j]) == k;
            let j2 = if j < i { j } else { j + 1 };
            assert(ng[j] == gs[j2]);
        }
    }
}

proof fn lemma_push_other_keys(gs: Seq<FragmentGroup>, g: FragmentGroup)
    requires
        keys_unique(gs),
        !has_key(gs, key_of(g)),
    ensures
        keys_unique(gs.push(g)),
        has_key(gs.push(g), key_of(g)),
        frags_at(gs.push(g), key_of(g)) == g.fragments@,
        forall|k: GroupKey|
            k != key_of(g) ==> has_key(gs.push(g), k) == has_key(gs, k) && frags_at(gs.push(g), k) == frags_at(
                gs,
                k,
            ),
{
    let ng = gs.push(g);
    assert(keys_unique(ng)) by {
        assert forall|a: int, b: int| 0 <= a < b < ng.len() implies key_of(ng[a]) != key_of(ng[b]) by {
            if b == gs.len() {
                assert(ng[a] == gs[a]);
            }
        }
    }
    lemma_frags_at(ng, key_of(g), gs.len() as int);
    assert forall|k: GroupKey| k != key_of(g) implies has_key(ng, k) == has_key(gs, k) && frags_at(ng, k)
        == frags_at(gs, k) by {
        if has_key(gs, k) {
            let j = choose|j: int| 0 <= j < gs.len() && key_of(#[trigger] gs[j]) == k;
            assert(ng[j] == gs[j]);
            lemma_frags_at(gs, k, j);
            lemma_frags_at(ng, k, j);
        } else if has_key(ng, k) {
            let j = choose|j: int| 0 <= j < ng.len() && key_of(#[trigger] ng[j]) == k;
            assert(j != gs.len());
            assert(ng[j] == gs[j]);
        }
    }
}

proof fn lemma_no_key_empty(gs: Seq<FragmentGroup>, k: GroupKey)
    requires
        !has_key(gs, k),
    ensures
        frags_at(gs, k) == Seq::<Fragment>::empty(),
{
}

/// The key of the datagram a packet belongs to.
pub open spec fn packet_key(p: DecodedPacket) -> GroupKey {
    (p.ip_header.source_ip, p.ip_header.dest_ip, p.ip_header.identification)
}

/// `f` is the fragment that the packet carries.
pub open spec fn fragment_carries(f: Fragment, p: DecodedPacket) -> bool {
    &&& f.offset == p.ip_header.fragment_offset
    &&& f.data@ == transport_payload(p.protocol)
    &&& f.more_fragments == p.ip_header.more_fragments
    &&& f.received_at == p.timestamp
}

/// Two group tables hold the same fragments under every key.
pub open spec fn same_table(a: Seq<FragmentGroup>, b: Seq<FragmentGroup>) -> bool {
    forall|k: GroupKey| has_key(a, k) == has_key(b, k) && frags_at(a, k) == frags_at(b, k)
}

/// Two group tables agree on every key but `key`.
pub open spec fn same_elsewhere(a: Seq<FragmentGroup>, b: Seq<FragmentGroup>, key: GroupKey) -> bool {
    forall|k: GroupKey| k != key ==> has_key(a, k) == has_key(b, k) && frags_at(a, k) == frags_at(b, k)
}

/// `t` is the transport layer `o` with its bytes replaced by `data`.
pub open spec fn transport_replaced(t: TransportProtocol, o: TransportProtocol, data: Seq<u8>) -> bool {
    match (t, o) {
        (
            TransportProtocol::TCP { seq: s1, ack: a1, flags: f1, window: w1, src_port: p1, dst_port: d1, payload: x1 },
            TransportProtocol::TCP { seq: s2, ack: a2, flags: f2, window: w2, src_port: p2, dst_port: d2, payload: _ },
        ) => s1 == s2 && a1 == a2 && f1 == f2 && w1 == w2 && p1 == p2 && d1 == d2 && x1@ == data,
        (
            TransportProtocol::UDP { src_port: p1, dst_port: d1, payload: x1 },
            TransportProtocol::UDP { src_port: p2, dst_port: d2, payload: _ },
        ) => p1 == p2 && d1 == d2 && x1@ == data,
        _ => false,
    }
}

/// `p` is the whole datagram rebuilt from `data` on the header of the
/// fragment `o`: no longer a fragment, its total length that of a 20-byte
/// header and the data, its checksum zero.
pub open spec fn reassembled_from(p: DecodedPacket, o: DecodedPacket, data: Seq<u8>) -> bool {
    &&& p.ip_header.version == o.ip_header.version
    &&& p.ip_header.ihl == o.ip_header.ihl
    &&& p.ip_header.tos == o.ip_header.tos
    &&& p.ip_header.total_length == 20 + data.len()
    &&& p.ip_header.identification == o.ip_header.identification
    &&& p.ip_header.flags == o.ip_header.flags / 2 * 2
    &&& p.ip_header.fragment_offset == 0
    &&& !p.ip_header.more_fragments
    &&& p.ip_header.ttl == o.ip_header.ttl
    &&& p.ip_header.protocol == o.ip_header.protocol
    &&& p.ip_header.header_checksum == 0
    &&& p.ip_header.source_ip == o.ip_header.source_ip
    &&& p.ip_header.dest_ip == o.ip_header.dest_ip
    &&& p.timestamp == o.timestamp
    &&& p.payload@ == data
    &&& transport_replaced(p.protocol, o.protocol, data)
}

/// What handling the fragment `f` of packet `p` does to the live groups
/// `live`, giving the groups `fin` and the result `r`.
pub open spec fn defrag_outcome(
    live: Seq<FragmentGroup>,
    max_groups: usize,
    policy: FragmentPolicy,
    f: Fragment,
    p: DecodedPacket,
    fin: Seq<FragmentGroup>,
    r: Result<Option<DecodedPacket>, ReassembleError>,
) -> bool {
    let key = packet_key(p);
    let before = frags_at(live, key);
    if !has_key(live, key) && live.len() >= max_groups {
        &&& r == Err::<Option<DecodedPacket>, ReassembleError>(
            ReassembleError::PacketError(PacketError::TooManyFragments),
        )
        &&& same_table(fin, live)
    } else if !policy_accepts(policy, before, f) {
        &&& r == Ok::<Option<DecodedPacket>, ReassembleError>(None)
        &&& same_table(fin, live)
    } else {
        let after = place(before, f);
        &&& same_elsewhere(fin, live, key)
        &&& if frags_complete(after) {
            &&& !has_key(fin, key)
            &&& if assemble(after).len() + 20 <= 65535 {
                r is Ok && r->Ok_0 is Some && reassembled_from(r->Ok_0->Some_0, p, assemble(after))
            } else {
                r == Err::<Option<DecodedPacket>, ReassembleError>(
                    ReassembleError::PacketError(PacketError::ReassemblyFailed),
                )
            }
        } else {
            &&& r == Ok::<Option<DecodedPacket>, ReassembleError>(None)
            &&& has_key(fin, key)
            &&& frags_at(fin, key) == after
        }
    }
}

/// What handling the packet `p` does to the defragmenter `a`, giving `b`
/// and the result `r`.
pub open spec fn defrag_step(
    a: IpDefragmenter,
    p: DecodedPacket,
    b: IpDefragmenter,
    r: Result<Option<DecodedPacket>, ReassembleError>,
) -> bool {
    &&& (b.wf())
    &&& (b.policy == a.policy)
    &&& (b.max_groups == a.max_groups)
    &&& (b.timeout_ms == a.timeout_ms)
    &&& (!is_fragment(p) ==> r is Ok && r->Ok_0 is Some && same_packet(r->Ok_0->Some_0, p)
        && b.groups@ == a.groups@)
    &&& (is_fragment(p) && !fragment_valid(p) ==> r == Err::<Option<DecodedPacket>, ReassembleError>(
        ReassembleError::PacketError(PacketError::InvalidFragment),
    ) && b.groups@ == a.groups@)
    &&& (!is_fragment(p) || !fragment_valid(p) ==> b.stats == a.stats)
    &&& (is_fragment(p) && fragment_valid(p) ==> {
        let live = live_groups(a.groups@, p.timestamp, a.timeout_ms);
        let capped = !has_key(live, packet_key(p)) && live.len() >= a.max_groups;
        &&& b.stats.expired_groups == sat_add(
            a.stats.expired_groups,
            a.groups@.len() - live.len(),
        )
        &&& b.stats.overlapping_fragments == a.stats.overlapping_fragments
        &&& capped ==> b.stats.total_fragments == a.stats.total_fragments
            && b.stats.total_length == a.stats.total_length
        &&& !capped ==> b.stats.total_fragments == bumped(a.stats.total_fragments)
            && b.stats.total_length == sat_add(
            a.stats.total_length,
            transport_payload(p.protocol).len() as int,
        )
        &&& b.stats.reassembled_packets == if r is Err && r != Err::<
            Option<DecodedPacket>,
            ReassembleError,
        >(ReassembleError::PacketError(PacketError::ReassemblyFailed)) || r == Ok::<
            Option<DecodedPacket>,
            ReassembleError,
        >(None) {
            a.stats.reassembled_packets
        } else {
            bumped(a.stats.reassembled_packets)
        }
    })
    &&& (is_fragment(p) && fragment_valid(p) ==> exists|f: Fragment|
        fragment_carries(f, p) && defrag_outcome(
            live_groups(a.groups@, p.timestamp, a.timeout_ms),
            a.max_groups,
            a.policy,
            f,
            p,
            b.groups@,
            r,
        ))
}

impl IpDefragmenter {
    /// The datagram rebuilt from `data` on the header of the fragment
    /// `last`, when its length fits an IPv4 header.
    pub fn create_reassembled_packet(&self, last: &DecodedPacket, data: &Vec<u8>) -> (r: Option<DecodedPacket>)
        ensures
            r is Some <==> data@.len() + 20 <= 65535,
            r is Some ==> reassembled_from(r->Some_0, *last, data@),
    {
        if data.len() > 65535 - 20 {
            return None;
        }
        let h = last.ip_header;
        let ip_header = IpHeader {
            version: h.version,
            ihl: h.ihl,
            tos: h.tos,
            total_length: (data.len() + 20) as u16,
            identification: h.identification,
            flags: h.flags / 2 * 2,
            fragment_offset: 0,
            more_fragments: false,
            ttl: h.ttl,
            protocol: h.protocol,
            header_checksum: 0,
            source_ip: h.source_ip,
            dest_ip: h.dest_ip,
        };
        let protocol = match &last.protocol {
            TransportProtocol::TCP { seq, ack, flags, window, src_port, dst_port, .. } => TransportProtocol::TCP {
                seq: *seq,
                ack: *ack,
                flags: *flags,
                window: *window,
                src_port: *src_port,
                dst_port: *dst_port,
                payload: copy_bytes(data),
            },
            TransportProtocol::UDP { src_port, dst_port, .. } => TransportProtocol::UDP {
                src_port: *src_port,
                dst_port: *dst_port,
                payload: copy_bytes(data),
            },
        };
        Some(DecodedPacket { ip_header, protocol, timestamp: last.timestamp, payload: copy_bytes(data) })
    }

    /// Handles one packet. A packet that is no fragment comes back as it
    /// is. A fragment joins the group of its datagram under the overlap
    /// policy, once expired groups are dropped; when that group is complete
    /// the whole datagram comes back and the group is gone.
    #[verifier::rlimit(80)]
    pub fn process_packet(&mut self, packet: &DecodedPacket) -> (r: Result<Option<DecodedPacket>, ReassembleError>)
        requires
            old(self).wf(),
        ensures
            defrag_step(*old(self), *packet, *final(self), r),
    {
        if packet.ip_header.fragment_offset == 0 && !packet.ip_header.more_fragments {
            return Ok(Some(copy_packet(packet)));
        }
        if !self.validate_fragment_packet(packet) {
            return Err(ReassembleError::PacketError(PacketError::InvalidFragment));
        }
        let now = packet.timestamp;
        self.cleanup_expired_groups(now);
        let ghost live = self.groups@;
        let key: GroupKey = (packet.ip_header.source_ip, packet.ip_header.dest_ip, packet.ip_header.identification);
        let data = transport_bytes(&packet.protocol);
        let len = data.len();
        let fragment = Fragment::new(packet.ip_header.fragment_offset, data, packet.ip_header.more_fragments, now);
        let ghost f = fragment;
        let i = match self.find_group(key) {
            Some(i) => {
                proof {
                    lemma_frags_at(live, key, i as int);
                }
                i
            },
            None => {
                if self.groups.len() >= self.max_groups {
                    proof {
                        assert(fragment_carries(f, *packet));
                        assert(same_table(self.groups@, live));
                        assert(defrag_outcome(live, self.max_groups, self.policy, f, *packet, self.groups@, Err(ReassembleError::PacketError(PacketError::TooManyFragments))));
                    }
                    return Err(ReassembleError::PacketError(PacketError::TooManyFragments));
                }
                let g = FragmentGroup::new(
                    packet.ip_header.source_ip,
                    packet.ip_header.dest_ip,
                    packet.ip_header.identification,
                    packet.ip_header.protocol,
                    self.policy,
                    now,
                );
                proof {
                    lemma_push_other_keys(live, g);
                    lemma_no_key_empty(live, key);
                }
                self.groups.push(g);
                self.groups.len() - 1
            },
        };
        let ghost table = self.groups@;
        assert(frags_at(table, key) == frags_at(live, key));
        assert(same_elsewhere(table, live, key));
        self.stats.total_fragments = crate::decode::bump(self.stats.total_fragments);
        self.stats.total_length = saturating_add(self.stats.total_length, len);
        proof {
            lemma_frags_at(table, key, i as int);
        }
        let accepted = self.groups[i].add_fragment(fragment);
        if !accepted {
            proof {
                assert(self.groups@ =~= table);
                if !has_key(live, key) {
                    assert(frags_at(live, key) == Seq::<Fragment>::empty());
                    assert(policy_accepts(self.policy, frags_at(live, key), f));
                }
                assert(has_key(live, key));
                assert(table == live);
                assert(same_table(self.groups@, live));
                assert(fragment_carries(f, *packet));
                assert(defrag_outcome(live, self.max_groups, self.policy, f, *packet, self.groups@, Ok(None)));
            }
            return Ok(None);
        }
        proof {
            lemma_update_other_keys(table, i as int, self.groups@[i as int]);
            assert(self.groups@ =~= table.update(i as int, self.groups@[i as int]));
        }
        let ghost added = self.groups@;
        assert(same_elsewhere(added, live, key)) by {
            assert forall|k: GroupKey| k != key implies has_key(added, k) == has_key(live, k) && frags_at(added, k)
                == frags_at(live, k) by {
                assert(has_key(added, k) == has_key(table, k) && frags_at(added, k) == frags_at(table, k));
                assert(has_key(table, k) == has_key(live, k) && frags_at(table, k) == frags_at(live, k));
            }
        }
        self.groups[i].update_last_seen(now);
        proof {
            lemma_update_other_keys(added, i as int, self.groups@[i as int]);
            assert(self.groups@ =~= added.update(i as int, self.groups@[i as int]));
            assert(fragment_carries(f, *packet));
            assert(frags_at(self.groups@, key) == place(frags_at(live, key), f));
            assert forall|k: GroupKey| k != key implies has_key(self.groups@, k) == has_key(live, k) && frags_at(
                self.groups@,
                k,
            ) == frags_at(live, k) by {
                assert(has_key(self.groups@, k) == has_key(added, k) && frags_at(self.groups@, k) == frags_at(added, k));
            }
            assert(same_elsewhere(self.groups@, live, key));
        }
        if !self.groups[i].is_complete() {
            proof {
                lemma_frags_at(self.groups@, key, i as int);
                assert(defrag_outcome(live, self.max_groups, self.policy, f, *packet, self.groups@, Ok(None)));
            }
            return Ok(None);
        }
        let assembled = match self.groups[i].reassemble() {
            Ok(d) => d,
            Err(e) => {
                return Err(ReassembleError::PacketError(e));
            },
        };
        let ghost full = self.groups@;
        proof {
            lemma_remove_other_keys(full, i as int);
        }
        self.groups.remove(i);
        self.stats.reassembled_packets = crate::decode::bump(self.stats.reassembled_packets);
        proof {
            lemma_frags_at(full, key, i as int);
            assert forall|k: GroupKey| k != key implies has_key(self.groups@, k) == has_key(live, k) && frags_at(
                self.groups@,
                k,
            ) == frags_at(live, k) by {
                assert(has_key(self.groups@, k) == has_key(full, k) && frags_at(self.groups@, k) == frags_at(full, k));
            }
            assert(same_elsewhere(self.groups@, live, key));
        }
        let r = match self.create_reassembled_packet(packet, &assembled) {
            Some(p) => Ok(Some(p)),
            None => Err(ReassembleError::PacketError(PacketError::ReassemblyFailed)),
        };
        proof {
            assert(defrag_outcome(live, self.max_groups, self.policy, f, *packet, self.groups@, r));
        }
        r
    }
}

/// `fs` cuts the bytes `p` into fragments: in offset order, each holding the
/// bytes of `p` at its offset, every one but the last a non-empty multiple
/// of eight bytes that says more follow and ends where the next starts, and
/// the last saying none follow and ending where `p` ends.
pub open spec fn is_fragmentation(fs: Seq<Fragment>, p: Seq<u8>) -> bool {
    &&& fs.len() > 0
    &&& fs[0].offset == 0
    &&& forall|i: int|
        0 <= i < fs.len() ==> frag_end(#[trigger] fs[i]) <= p.len() && fs[i].data@ == p.subrange(
            frag_start(fs[i]),
            frag_end(fs[i]),
        )
    &&& forall|i: int|
        0 <= i < fs.len() - 1 ==> (#[trigger] fs[i]).more_fragments && fs[i].data@.len() % 8 == 0
            && fs[i].data@.len() > 0 && frag_start(fs[i + 1]) == frag_end(fs[i])
    &&& !fs.last().more_fragments
    &&& frag_end(fs.last()) == p.len()
}

#[verifier::rlimit(50)]
proof fn lemma_assemble_prefix(fs: Seq<Fragment>, p: Seq<u8>, k: int)
    requires
        is_fragmentation(fs, p),
        1 <= k <= fs.len(),
    ensures
        assemble(fs.take(k)) == p.subrange(0, frag_end(fs[k - 1])),
    decreases k,
{
    let t = fs.take(k);
    assert(t.drop_last() =~= fs.take(k - 1));
    assert(t.last() == fs[k - 1]);
    if k == 1 {
        assert(fs.take(0) =~= Seq::<Fragment>::empty());
        assert(assemble(fs.take(0)) == Seq::<u8>::empty());
        assert(zeros(frag_start(fs[0]) - 0) =~= Seq::<u8>::empty());
        assert(assemble(t) == assemble(t.drop_last()) + zeros(frag_start(t.last()) - assemble(t.drop_last()).len())
            + t.last().data@);
        assert(assemble(t) =~= fs[0].data@);
    } else {
        lemma_assemble_prefix(fs, p, k - 1);
        let prev = assemble(fs.take(k - 1));
        assert(fs[k - 1].data@ == p.subrange(frag_start(fs[k - 1]), frag_end(fs[k - 1])));
        assert(frag_end(fs[k - 1]) <= p.len());
        assert(assemble(t) == prev + zeros(frag_start(t.last()) - prev.len()) + t.last().data@);
        assert(frag_start(fs[k - 1]) == frag_end(fs[k - 2]));
        assert(zeros(frag_start(fs[k - 1]) - prev.len()) =~= Seq::<u8>::empty());
        assert(p.subrange(0, frag_end(fs[k - 2])) + p.subrange(frag_start(fs[k - 1]), frag_end(fs[k - 1]))
            =~= p.subrange(0, frag_end(fs[k - 1])));
    }
}

/// Fragment reassembly: fragments that cut a payload apart, whatever their
/// size, form a complete group whose reassembly is that payload.
pub proof fn law_fragment_reassembly(fs: Seq<Fragment>, p: Seq<u8>)
    requires
        is_fragmentation(fs, p),
    ensures
        frags_complete(fs),
        assemble(fs) == p,
{
    lemma_assemble_prefix(fs, p, fs.len() as int);
    assert(fs.take(fs.len() as int) =~= fs);
    assert(p.subrange(0, p.len() as int) =~= p);
    assert forall|i: int| 0 <= i < fs.len() - 1 implies (#[trigger] fs[i]).more_fragments && fs[i].offset + frag_units(fs[i])
        == fs[i + 1].offset by {
        let l = fs[i].data@.len() as int;
        assert(l % 8 == 0);
        assert((l + 7) / 8 == l / 8);
    }
}

/// Resource cap: once the live groups reach the cap, a fragment of a new
/// datagram is refused with `TooManyFragments` and the groups stay as they
/// were.
pub proof fn law_group_cap(
    live: Seq<FragmentGroup>,
    max_groups: usize,
    policy: FragmentPolicy,
    f: Fragment,
    p: DecodedPacket,
    fin: Seq<FragmentGroup>,
    r: Result<Option<DecodedPacket>, ReassembleError>,
)
    requires
        defrag_outcome(live, max_groups, policy, f, p, fin, r),
        live.len() >= max_groups,
        !has_key(live, packet_key(p)),
    ensures
        r == Err::<Option<DecodedPacket>, ReassembleError>(ReassembleError::PacketError(PacketError::TooManyFragments)),
        same_table(fin, live),
{
}

proof fn lemma_filter_all_frags(g: Seq<Fragment>, f: Fragment)
    requires
        forall|i: int| 0 <= i < g.len() ==> !conflict(#[trigger] g[i], f),
    ensures
        kept_with(g, f) == g,
    decreases g.len(),
{
    reveal(Seq::filter);
    if g.len() > 0 {
        lemma_filter_all_frags(g.drop_last(), f);
        assert(g.drop_last().push(g.last()) =~= g);
    }
}

/// In an offset-sorted group, the fragments below `offset` are a prefix
/// whose length `count_below` gives.
proof fn lemma_count_below_prefix(g: Seq<Fragment>, offset: u16)
    requires
        frags_sorted(g),
    ensures
        0 <= count_below(g, offset) <= g.len(),
        forall|i: int| 0 <= i < g.len() ==> ((#[trigger] g[i]).offset < offset <==> i < count_below(g, offset)),
    decreases g.len(),
{
    if g.len() > 0 {
        let d = g.drop_last();
        lemma_count_below_prefix(d, offset);
        assert(d.push(g.last()) =~= g);
        lemma_filter_push(d, g.last(), |h: Fragment| h.offset < offset);
        let c = count_below(d, offset);
        if g.last().offset < offset {
            assert forall|i: int| 0 <= i < d.len() implies d[i].offset < offset by {
                assert(g[i].offset < g[g.len() - 1].offset);
            }
            if c < d.len() {
                assert(d[c].offset < offset);
            }
            assert(c == d.len());
            assert(count_below(g, offset) == c + 1);
        } else {
            assert(count_below(g, offset) == c);
        }
        assert forall|i: int| 0 <= i < g.len() implies ((#[trigger] g[i]).offset < offset <==> i < count_below(g, offset)) by {
            if i < d.len() {
                assert(g[i] == d[i]);
            }
        }
    } else {
        reveal(Seq::filter);
    }
}

/// Placing a fragment that conflicts with none keeps the group sorted and
/// adds exactly that fragment.
proof fn lemma_place_adds(g: Seq<Fragment>, f: Fragment)
    requires
        frags_sorted(g),
        frags_disjoint(g),
        forall|i: int| 0 <= i < g.len() ==> !conflict(#[trigger] g[i], f),
    ensures
        frags_sorted(place(g, f)),
        frags_disjoint(place(g, f)),
        place(g, f).len() == g.len() + 1,
        forall|x: Fragment| place(g, f).contains(x) <==> (g.contains(x) || x == f),
{
    lemma_filter_all_frags(g, f);
    lemma_count_below_prefix(g, f.offset);
    let c = count_below(g, f.offset);
    let r = place(g, f);
    assert(r == g.insert(c, f));
    assert forall|a: int, b: int| 0 <= a < b < r.len() implies r[a].offset < r[b].offset && !conflict(r[a], r[b]) by {
        if b < c {
        } else if b == c {
            assert(g[a].offset < f.offset);
            assert(!conflict(g[a], f));
        } else if a < c {
            assert(r[b] == g[b - 1]);
        } else if a == c {
            assert(r[b] == g[b - 1]);
            assert(g[b - 1].offset >= f.offset);
            assert(g[b - 1].offset != f.offset);
            assert(!conflict(g[b - 1], f));
        } else {
            assert(r[a] == g[a - 1]);
            assert(r[b] == g[b - 1]);
        }
    }
    assert forall|x: Fragment| r.contains(x) <==> (g.contains(x) || x == f) by {
        if r.contains(x) {
            let k = choose|k: int| 0 <= k < r.len() && r[k] == x;
            if k < c {
                assert(g[k] == x);
            } else if k > c {
                assert(g[k - 1] == x);
            }
        }
        if g.contains(x) {
            let k = choose|k: int| 0 <= k < g.len() && g[k] == x;
            if k < c {
                assert(r[k] == x);
            } else {
                assert(r[k + 1] == x);
            }
        }
        if x == f {
            assert(r[c] == f);
        }
    }
}

/// Two offset-sorted groups that hold the same fragments are the same.
proof fn lemma_sorted_unique(a: Seq<Fragment>, b: Seq<Fragment>)
    requires
        frags_sorted(a),
        frags_sorted(b),
        forall|x: Fragment| a.contains(x) <==> b.contains(x),
    ensures
        a == b,
    decreases a.len() + b.len(),
{
    if a.len() == 0 {
        if b.len() > 0 {
            assert(b.contains(b[0]));
        }
        assert(b =~= a);
    } else if b.len() == 0 {
        assert(a.contains(a[0]));
    } else {
        let x = a.last();
        let y = b.last();
        assert(a.contains(x));
        assert(b.contains(y));
        let iy = choose|k: int| 0 <= k < a.len() && a[k] == y;
        let ix = choose|k: int| 0 <= k < b.len() && b[k] == x;
        assert(x.offset >= y.offset) by {
            if iy < a.len() - 1 {
                assert(a[iy].offset < a[a.len() - 1].offset);
            }
        }
        assert(y.offset >= x.offset) by {
            if ix < b.len() - 1 {
                assert(b[ix].offset < b[b.len() - 1].offset);
            }
        }
        assert(iy == a.len() - 1) by {
            if iy < a.len() - 1 {
                assert(a[iy].offset < a[a.len() - 1].offset);
            }
        }
        assert(x == y);
        let a2 = a.drop_last();
        let b2 = b.drop_last();
        assert forall|z: Fragment| a2.contains(z) <==> b2.contains(z) by {
            if a2.contains(z) {
                let k = choose|k: int| 0 <= k < a2.len() && a2[k] == z;
                assert(a[k] == z);
                assert(z.offset < x.offset);
                assert(b.contains(z));
                let m = choose|m: int| 0 <= m < b.len() && b[m] == z;
                assert(m != b.len() - 1);
                assert(b2[m] == z);
            }
            if b2.contains(z) {
                let k = choose|k: int| 0 <= k < b2.len() && b2[k] == z;
                assert(b[k] == z);
                assert(z.offset < y.offset);
                assert(a.contains(z));
                let m = choose|m: int| 0 <= m < a.len() && a[m] == z;
                assert(m != a.len() - 1);
                assert(a2[m] == z);
            }
        }
        lemma_sorted_unique(a2, b2);
        assert(a =~= a2.push(x));
        assert(b =~= b2.push(y));
    }
}

/// The group built by placing fragments one after another, in order.
pub open spec fn place_all(g: Seq<Fragment>, fs: Seq<Fragment>) -> Seq<Fragment>
    decreases fs.len(),
{
    if fs.len() == 0 {
        g
    } else {
        place(place_all(g, fs.drop_last()), fs.last())
    }
}

/// No two fragments of `fs` conflict, and none repeats.
pub open spec fn pairwise_apart(fs: Seq<Fragment>) -> bool {
    forall|i: int, j: int| 0 <= i < fs.len() && 0 <= j < fs.len() && i != j ==> !conflict(fs[i], fs[j])
}

proof fn lemma_place_all_contents(fs: Seq<Fragment>)
    requires
        pairwise_apart(fs),
    ensures
        frags_sorted(place_all(Seq::empty(), fs)),
        frags_disjoint(place_all(Seq::empty(), fs)),
        forall|x: Fragment| place_all(Seq::empty(), fs).contains(x) <==> fs.contains(x),
    decreases fs.len(),
{
    if fs.len() > 0 {
        let d = fs.drop_last();
        let f = fs.last();
        assert(pairwise_apart(d)) by {
            assert forall|i: int, j: int| 0 <= i < d.len() && 0 <= j < d.len() && i != j implies !conflict(d[i], d[j]) by {
                assert(d[i] == fs[i] && d[j] == fs[j]);
            }
        }
        lemma_place_all_contents(d);
        let g = place_all(Seq::empty(), d);
        assert forall|i: int| 0 <= i < g.len() implies !conflict(#[trigger] g[i], f) by {
            assert(g.contains(g[i]));
            assert(d.contains(g[i]));
            let k = choose|k: int| 0 <= k < d.len() && d[k] == g[i];
            assert(fs[k] == g[i]);
            assert(k != fs.len() - 1);
        }
        lemma_place_adds(g, f);
        assert forall|x: Fragment| place(g, f).contains(x) <==> fs.contains(x) by {
            if fs.contains(x) {
                let k = choose|k: int| 0 <= k < fs.len() && fs[k] == x;
                if k < fs.len() - 1 {
                    assert(d[k] == x);
                }
            }
            if d.contains(x) {
                let k = choose|k: int| 0 <= k < d.len() && d[k] == x;
                assert(fs[k] == x);
            }
        }
    }
}

/// Arrival order does not matter: placing fragments that pairwise do not
/// conflict, in two orders holding the same fragments, builds the same
/// group; when they cut a payload apart, that group reassembles to it.
pub proof fn law_fragment_order_free(fs1: Seq<Fragment>, fs2: Seq<Fragment>, p: Seq<u8>, cut: Seq<Fragment>)
    requires
        pairwise_apart(fs1),
        pairwise_apart(fs2),
        forall|x: Fragment| fs1.contains(x) <==> fs2.contains(x),
        is_fragmentation(cut, p),
        forall|x: Fragment| fs1.contains(x) <==> cut.contains(x),
    ensures
        place_all(Seq::empty(), fs1) == place_all(Seq::empty(), fs2),
        place_all(Seq::empty(), fs1) == cut,
        frags_complete(place_all(Seq::empty(), fs1)),
        assemble(place_all(Seq::empty(), fs1)) == p,
{
    lemma_place_all_contents(fs1);
    lemma_place_all_contents(fs2);
    let g1 = place_all(Seq::empty(), fs1);
    let g2 = place_all(Seq::empty(), fs2);
    assert forall|x: Fragment| g1.contains(x) <==> g2.contains(x) by {
        assert(g1.contains(x) <==> fs1.contains(x));
        assert(g2.contains(x) <==> fs2.contains(x));
    }
    lemma_sorted_unique(g1, g2);
    assert forall|x: Fragment| g1.contains(x) <==> cut.contains(x) by {
        assert(g1.contains(x) <==> fs1.contains(x));
    }
    assert(frags_sorted(cut)) by {
        assert forall|i: int, j: int| 0 <= i < j < cut.len() implies cut[i].offset < cut[j].offset by {
            lemma_fragmentation_increasing(cut, p, i, j);
        }
    }
    lemma_sorted_unique(place_all(Seq::empty(), fs1), cut);
    law_fragment_reassembly(cut, p);
}

proof fn lemma_fragmentation_increasing(cut: Seq<Fragment>, p: Seq<u8>, i: int, j: int)
    requires
        is_fragmentation(cut, p),
        0 <= i < j < cut.len(),
    ensures
        cut[i].offset < cut[j].offset,
    decreases j - i,
{
    assert(frag_start(cut[i + 1]) == frag_end(cut[i]));
    assert(cut[i].data@.len() > 0);
    if j > i + 1 {
        lemma_fragmentation_increasing(cut, p, i + 1, j);
    }
}

} // verus!
