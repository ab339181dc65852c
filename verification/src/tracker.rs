//! Live connection table: one HPACK context per direction, maintained
//! continuously so a snapshot can be taken at any moment.
//!
//! Connections are kept in the order of their keys, so that the per-packet
//! lookup is a binary search.
use vstd::prelude::*;
use vstd::string::*;

use crate::addr::{addr_le, addr_text, lemma_addr_order, SocketAddr};
use crate::bytes::{add64, off_plus};
use crate::conn::{
    boundary_seq, capped, fed, frames_view, midstream_state, snapshottable, start_state, ticked,
    Direction, DirectionView, ProcessedFrame, ProcessedFrameView,
};
use crate::hpack::{claims_exact, peer_capped, table_bytes, Decoder, DecoderView};
use crate::pkt::{tcp_flags, SegmentView, TcpSegment};
use crate::ports::{ascending, contains_port, sorted_ports};
use crate::reassembly::{syn_noted, ReassemblerView};
use crate::snapshot::{
    conns_view, entries_view, entry_of, ConnSnapshot, ConnSnapshotView, DirSnapshot,
    DirSnapshotView, Entry, Str,
};
use crate::text::{decimal, push_decimal};

pub mod laws;
pub mod opening;
pub mod pending;

verus! {

/// How long a closed connection is kept, so that a capture started right after
/// teardown still sees it.
pub const CLOSED_LINGER_US: u64 = 10_000_000;

/// What identifies a connection while it lasts: its two ends, the lesser one
/// first.
#[derive(Debug, Clone, Copy, PartialEq, Eq, Structural)]
pub struct ConnKey {
    pub low: SocketAddr,
    pub high: SocketAddr,
}

/// The key of a connection between `a` and `b`. Both directions of a connection
/// map to one key.
pub open spec fn key_between(a: SocketAddr, b: SocketAddr) -> ConnKey {
    if addr_le(a, b) {
        ConnKey { low: a, high: b }
    } else {
        ConnKey { low: b, high: a }
    }
}

/// The key of a connection between `a` and `b`.
pub fn key_of(a: SocketAddr, b: SocketAddr) -> (r: ConnKey)
    ensures
        r == key_between(a, b),
{
    if a.is_le(&b) {
        ConnKey { low: a, high: b }
    } else {
        ConnKey { low: b, high: a }
    }
}

/// The order in which connections are kept.
pub open spec fn key_lt(x: ConnKey, y: ConnKey) -> bool {
    if x.low != y.low {
        addr_le(x.low, y.low)
    } else {
        x.high != y.high && addr_le(x.high, y.high)
    }
}

/// Whether the first key comes before the second.
pub fn key_is_lt(x: &ConnKey, y: &ConnKey) -> (r: bool)
    ensures
        r == key_lt(*x, *y),
{
    if x.low != y.low {
        x.low.is_le(&y.low)
    } else {
        x.high != y.high && x.high.is_le(&y.high)
    }
}

/// The order is one.
pub proof fn lemma_key_order(x: ConnKey, y: ConnKey, z: ConnKey)
    ensures
        !key_lt(x, x),
        key_lt(x, y) || key_lt(y, x) || x == y,
        key_lt(x, y) ==> !key_lt(y, x),
        key_lt(x, y) && key_lt(y, z) ==> key_lt(x, z),
{
    lemma_addr_order(x.low, y.low);
    lemma_addr_order(x.high, y.high);
}

/// One direction of a tracked connection.
#[derive(Debug)]
pub struct DirTrack {
    pub dir: Direction,
    /// When the currently pending (received but not yet framed) bytes first
    /// appeared, those beyond a hole included. Used to check the ring buffer
    /// still covers them.
    pub pending_since_us: Option<u64>,
}

/// The same as a mathematical value.
#[verifier::ext_equal]
pub struct DirTrackView {
    pub dir: DirectionView,
    pub pending_since_us: Option<u64>,
}

impl View for DirTrack {
    type V = DirTrackView;

    open spec fn view(&self) -> DirTrackView {
        DirTrackView { dir: self.dir@, pending_since_us: self.pending_since_us }
    }
}

/// A direction that was just found.
pub open spec fn fresh_track(
    from_start: bool,
    expect_preface: bool,
    table_limit: usize,
) -> DirTrackView {
    DirTrackView {
        dir: capped(
            if from_start {
                start_state(false, expect_preface)
            } else {
                midstream_state(false)
            },
            table_limit,
        ),
        pending_since_us: None,
    }
}

/// Whether bytes have been received that are not framed yet: some wait for the
/// rest of their frame, or are held until a hole is filled.
pub open spec fn unframed(r: ReassemblerView) -> bool {
    r.avail.len() > 0 || r.ooo.len() > 0
}

/// Since when bytes are pending, once a segment has been taken in.
pub open spec fn pending_after(
    since: Option<u64>,
    r: ReassemblerView,
    now_us: u64,
) -> Option<u64> {
    if !unframed(r) {
        None
    } else if since is None {
        Some(now_us)
    } else {
        since
    }
}

impl DirTrack {
    /// The direction is well-formed.
    pub open spec fn wf(&self) -> bool {
        self.dir.wf()
    }

    fn new(from_start: bool, expect_preface: bool, table_limit: usize) -> (r: Self)
        ensures
            r.wf(),
            r@ == fresh_track(from_start, expect_preface, table_limit),
    {
        let mut dir: Direction = if from_start {
            Direction::from_connection_start(false, expect_preface)
        } else {
            Direction::joined_midstream(false)
        };
        dir.set_table_track_limit(table_limit);
        DirTrack { dir, pending_since_us: None }
    }

    fn after_feed(&mut self, now_us: u64)
        requires
            old(self).wf(),
        ensures
            final(self).wf(),
            final(self)@ == (DirTrackView {
                pending_since_us: pending_after(
                    old(self)@.pending_since_us,
                    old(self)@.dir.reasm,
                    now_us,
                ),
                ..old(self)@
            }),
    {
        if self.dir.reasm.available().len() == 0 && !self.dir.reasm.holds_back() {
            self.pending_since_us = None;
        } else if self.pending_since_us.is_none() {
            self.pending_since_us = Some(now_us);
        }
    }
}

/// A tracked connection.
#[derive(Debug)]
pub struct Conn {
    pub id: String,
    pub client: SocketAddr,
    pub server: SocketAddr,
    pub first_seen_us: u64,
    pub last_seen_us: u64,
    pub closed_at_us: Option<u64>,
    pub c2s: DirTrack,
    pub s2c: DirTrack,
}

/// The same as a mathematical value.
#[verifier::ext_equal]
pub struct ConnView {
    pub id: Seq<char>,
    pub client: SocketAddr,
    pub server: SocketAddr,
    pub first_seen_us: u64,
    pub last_seen_us: u64,
    pub closed_at_us: Option<u64>,
    pub c2s: DirTrackView,
    pub s2c: DirTrackView,
}

impl View for Conn {
    type V = ConnView;

    open spec fn view(&self) -> ConnView {
        ConnView {
            id: self.id@,
            client: self.client,
            server: self.server,
            first_seen_us: self.first_seen_us,
            last_seen_us: self.last_seen_us,
            closed_at_us: self.closed_at_us,
            c2s: self.c2s@,
            s2c: self.s2c@,
        }
    }
}

/// The key of a tracked connection.
pub open spec fn conn_key(c: ConnView) -> ConnKey {
    key_between(c.client, c.server)
}

/// What the capacities advertised in `fs` make of the opposite direction's
/// decoder, in order.
pub open spec fn capacities_applied(d: DecoderView, fs: Seq<ProcessedFrameView>) -> DecoderView
    decreases fs.len(),
{
    if fs.len() == 0 {
        d
    } else {
        let before = capacities_applied(d, fs.drop_last());
        match fs.last().settings_table_size {
            Some(n) => peer_capped(before, n as usize),
            None => before,
        }
    }
}

/// Whether any of the flag bits `f` of the segment is set.
pub open spec fn seg_has(s: SegmentView, f: u8) -> bool {
    s.flags & f != 0
}

/// The two directions once a segment has arrived in the first of them.
pub open spec fn segment_fed(
    t: DirTrackView,
    other: DirTrackView,
    s: SegmentView,
    now_us: u64,
) -> (DirTrackView, DirTrackView) {
    let dir = if seg_has(s, tcp_flags::SYN) {
        DirectionView { reasm: syn_noted(t.dir.reasm, s.seq), ..t.dir }
    } else {
        t.dir
    };
    if s.payload.len() == 0 {
        (DirTrackView { dir, ..t }, other)
    } else {
        let (after, fs) = fed(dir, s.seq, s.payload, now_us);
        (
            DirTrackView {
                dir: after,
                pending_since_us: pending_after(t.pending_since_us, after.reasm, now_us),
            },
            // SETTINGS_HEADER_TABLE_SIZE bounds the *peer's* encoder, so it
            // caps the decoder for the opposite direction.
            DirTrackView {
                dir: DirectionView { dec: capacities_applied(other.dir.dec, fs), ..other.dir },
                ..other
            },
        )
    }
}

/// Where a segment comes from.
pub open spec fn seg_src(s: SegmentView) -> SocketAddr {
    SocketAddr { ip: s.src_ip, port: s.src_port }
}

/// Where a segment goes.
pub open spec fn seg_dst(s: SegmentView) -> SocketAddr {
    SocketAddr { ip: s.dst_ip, port: s.dst_port }
}

/// The connection once a segment has arrived on it.
pub open spec fn conn_fed(c: ConnView, s: SegmentView, now_us: u64) -> ConnView {
    let seen = ConnView {
        last_seen_us: now_us,
        closed_at_us: if (seg_has(s, tcp_flags::RST) || seg_has(s, tcp_flags::FIN))
            && c.closed_at_us is None {
            Some(now_us)
        } else {
            c.closed_at_us
        },
        ..c
    };
    if seg_src(s) == c.client {
        let (c2s, s2c) = segment_fed(c.c2s, c.s2c, s, now_us);
        ConnView { c2s, s2c, ..seen }
    } else {
        let (s2c, c2s) = segment_fed(c.s2c, c.c2s, s, now_us);
        ConnView { c2s, s2c, ..seen }
    }
}

/// The connection once a moment has passed.
pub open spec fn conn_ticked(c: ConnView, now_us: u64) -> ConnView {
    ConnView {
        c2s: DirTrackView { dir: ticked(c.c2s.dir, now_us).0, ..c.c2s },
        s2c: DirTrackView { dir: ticked(c.s2c.dir, now_us).0, ..c.s2c },
        ..c
    }
}

/// How long ago `t` was.
pub open spec fn elapsed(now_us: u64, t: u64) -> u64 {
    if now_us >= t {
        (now_us - t) as u64
    } else {
        0
    }
}

/// Whether a connection is worth keeping: it is not idle for too long, and not
/// closed for more than a moment.
pub open spec fn conn_alive(c: ConnView, now_us: u64, idle_us: u64) -> bool {
    &&& elapsed(now_us, c.last_seen_us) <= idle_us
    &&& c.closed_at_us matches Some(t) ==> elapsed(now_us, t) < CLOSED_LINGER_US
}

/// The segment arrives in the first direction.
fn feed_directions(
    t: &mut DirTrack,
    other: &mut DirTrack,
    seg: &TcpSegment<'_>,
    now_us: u64,
)
    requires
        old(t).wf(),
        old(other).wf(),
    ensures
        final(t).wf(),
        final(other).wf(),
        (final(t)@, final(other)@) == segment_fed(old(t)@, old(other)@, seg@, now_us),
{
    if seg.has(tcp_flags::SYN) {
        t.dir.reasm.note_syn(seg.seq);
    }
    if seg.payload.len() == 0 {
        return;
    }
    let frames: Vec<ProcessedFrame> = t.dir.feed(seg.seq, seg.payload, now_us);
    t.after_feed(now_us);
    apply_capacities(&mut other.dir.dec, &frames);
}

/// Applies the capacities that the frames advertise.
pub fn apply_capacities(dec: &mut Decoder, frames: &[ProcessedFrame])
    requires
        old(dec).wf(),
    ensures
        final(dec).wf(),
        final(dec)@ == capacities_applied(old(dec)@, frames_view(frames@)),
{
    let ghost fs = frames_view(frames@);
    let mut i: usize = 0;
    while i < frames.len()
        invariant
            i <= frames@.len(),
            fs == frames_view(frames@),
            dec.wf(),
            dec@ == capacities_applied(old(dec)@, fs.take(i as int)),
        decreases frames@.len() - i,
    {
        proof {
            assert(fs.take(i + 1).drop_last() =~= fs.take(i as int));
            assert(fs.take(i + 1).last() == frames@[i as int]@);
        }
        if let Some(n) = frames[i].settings_table_size {
            dec.apply_peer_capacity(n as usize);
        }
        i += 1;
    }
    assert(fs.take(fs.len() as int) =~= fs);
}

impl Conn {
    /// Both directions are well-formed.
    pub open spec fn wf(&self) -> bool {
        self.c2s.wf() && self.s2c.wf()
    }

    fn take_segment(&mut self, seg: &TcpSegment<'_>, now_us: u64)
        requires
            old(self).wf(),
        ensures
            final(self).wf(),
            final(self)@ == conn_fed(old(self)@, seg@, now_us),
    {
        self.last_seen_us = now_us;
        let src = SocketAddr::new(seg.src_ip, seg.src_port);
        if seg.has(tcp_flags::RST) || seg.has(tcp_flags::FIN) {
            if self.closed_at_us.is_none() {
                self.closed_at_us = Some(now_us);
            }
        }
        if src == self.client {
            feed_directions(&mut self.c2s, &mut self.s2c, seg, now_us);
        } else {
            feed_directions(&mut self.s2c, &mut self.c2s, seg, now_us);
        }
    }

    fn tick(&mut self, now_us: u64)
        requires
            old(self).wf(),
        ensures
            final(self).wf(),
            final(self)@ == conn_ticked(old(self)@, now_us),
    {
        let _c2s = self.c2s.dir.tick(now_us);
        let _s2c = self.s2c.dir.tick(now_us);
    }

    fn is_alive(&self, now_us: u64, idle_us: u64) -> (r: bool)
        ensures
            r == conn_alive(self@, now_us, idle_us),
    {
        if now_us.saturating_sub(self.last_seen_us) > idle_us {
            return false;
        }
        // Keep closed connections briefly so a capture started right after
        // teardown still sees them.
        match self.closed_at_us {
            Some(t) => now_us.saturating_sub(t) < CLOSED_LINGER_US,
            None => true,
        }
    }
}

/// The tracker's state as a mathematical value.
#[verifier::ext_equal]
pub struct TrackerView {
    /// In the order of their keys.
    pub conns: Seq<ConnView>,
    pub server_ports: Set<u16>,
    pub max_conns: usize,
    pub idle_us: u64,
    pub table_limit: usize,
    pub segments: u64,
    pub evicted: u64,
    pub rejected_full: u64,
}

/// The connections of a list, one by one.
pub open spec fn conn_list_view(s: Seq<Conn>) -> Seq<ConnView> {
    Seq::new(s.len(), |i: int| s[i]@)
}

/// Whether the connections are in the order of their keys, no key twice.
pub open spec fn in_key_order(s: Seq<ConnView>) -> bool {
    forall|i: int, j: int|
        0 <= i < j < s.len() ==> key_lt(#[trigger] conn_key(s[i]), #[trigger] conn_key(s[j]))
}

/// Position from `i` on of the first connection whose key is not below `k`.
pub open spec fn slot_from(s: Seq<ConnView>, k: ConnKey, i: int) -> int
    decreases s.len() - i,
{
    if i < 0 || i >= s.len() || !key_lt(conn_key(s[i]), k) {
        i
    } else {
        slot_from(s, k, i + 1)
    }
}

/// Where the connection with key `k` is, or belongs.
pub open spec fn slot(s: Seq<ConnView>, k: ConnKey) -> int {
    slot_from(s, k, 0)
}

/// Whether a connection with key `k` is tracked.
pub open spec fn tracked_key(s: Seq<ConnView>, k: ConnKey) -> bool {
    slot(s, k) < s.len() && conn_key(s[slot(s, k)]) == k
}

/// The connections without the one with key `k`.
pub open spec fn without_key(s: Seq<ConnView>, k: ConnKey) -> Seq<ConnView> {
    if tracked_key(s, k) {
        s.remove(slot(s, k))
    } else {
        s
    }
}

/// The connection that a segment opens, or that we find in progress. A bare SYN
/// settles who the client is; otherwise the configured server ports do;
/// otherwise it is the sender. Only a bare SYN proves we have the stream from
/// byte one.
pub open spec fn opened_conn(t: TrackerView, s: SegmentView, now_us: u64) -> ConnView {
    let src = seg_src(s);
    let dst = seg_dst(s);
    let fresh_syn = seg_has(s, tcp_flags::SYN) && !seg_has(s, tcp_flags::ACK);
    let from_server = !fresh_syn && !t.server_ports.contains(dst.port) && t.server_ports.contains(
        src.port,
    );
    let (client, server) = if from_server {
        (dst, src)
    } else {
        (src, dst)
    };
    ConnView {
        id: conn_id(client, server, now_us),
        client,
        server,
        first_seen_us: now_us,
        last_seen_us: now_us,
        closed_at_us: None,
        c2s: fresh_track(fresh_syn, fresh_syn, t.table_limit),
        s2c: fresh_track(fresh_syn, false, t.table_limit),
    }
}

/// The id of a connection first seen at `now_us`.
pub open spec fn conn_id(client: SocketAddr, server: SocketAddr, now_us: u64) -> Seq<char> {
    addr_text(client) + "-"@ + addr_text(server) + "#"@ + decimal(now_us as nat)
}

/// The connections among which a segment is looked up: a bare SYN means a brand
/// new connection, so an existing entry on its key is a previous one.
pub open spec fn lookup_list(s: Seq<ConnView>, seg: SegmentView) -> Seq<ConnView> {
    if seg_has(seg, tcp_flags::SYN) && !seg_has(seg, tcp_flags::ACK) {
        without_key(s, key_between(seg_src(seg), seg_dst(seg)))
    } else {
        s
    }
}

/// The tracker once a segment has arrived.
pub open spec fn segment_tracked(t: TrackerView, s: SegmentView, now_us: u64) -> TrackerView {
    let k = key_between(seg_src(s), seg_dst(s));
    let conns = lookup_list(t.conns, s);
    let counted = TrackerView { segments: add64(t.segments, 1), conns, ..t };
    let i = slot(conns, k);
    if tracked_key(conns, k) {
        TrackerView { conns: conns.update(i, conn_fed(conns[i], s, now_us)), ..counted }
    } else if conns.len() >= t.max_conns {
        TrackerView { rejected_full: add64(t.rejected_full, 1), ..counted }
    } else {
        TrackerView {
            conns: conns.insert(i, conn_fed(opened_conn(t, s, now_us), s, now_us)),
            ..counted
        }
    }
}

/// The tracker once a moment has passed: holes are given up and dead
/// connections dropped.
pub open spec fn time_passed(t: TrackerView, now_us: u64) -> TrackerView {
    let conns = t.conns.map_values(|c: ConnView| conn_ticked(c, now_us)).filter(
        |c: ConnView| conn_alive(c, now_us, t.idle_us),
    );
    TrackerView { conns, evicted: add64(t.evicted, t.conns.len() - conns.len()), ..t }
}

/// Whether a capture whose oldest packet is from `ring_oldest_us` contains the
/// bytes pending since `since`. Pending bytes but no ring at all: the capture
/// cannot contain them.
pub open spec fn pending_covered(since: Option<u64>, ring_oldest_us: Option<u64>) -> bool {
    match (since, ring_oldest_us) {
        (None, _) => true,
        (Some(p), Some(oldest)) => p >= oldest,
        (Some(_), None) => false,
    }
}

/// Why a direction's snapshot cannot be used, if it cannot.
pub open spec fn refusal(t: DirTrackView, ring_oldest_us: Option<u64>) -> Option<Seq<char>> {
    if t.dir.dec.over_limit {
        Some(
            "peer negotiated a "@ + decimal(t.dir.dec.max_size as nat)
                + "-byte dynamic table, above --max-table-bytes; not tracked"@,
        )
    } else if t.dir.poisoned {
        Some("hpack state lost (packet gap or decode error)"@)
    } else if t.dir.desynced || t.dir.expect_preface {
        Some("frame boundary unknown"@)
    } else if !claims_exact(t.dir.dec) {
        Some("joined mid-stream; dynamic table not fully observed"@)
    } else if t.dir.block_hdr is Some {
        Some("in the middle of a header block"@)
    } else if !pending_covered(t.pending_since_us, ring_oldest_us) {
        Some("partially received frame predates the capture ring"@)
    } else {
        None
    }
}

/// The snapshot of one direction.
pub open spec fn dir_snapshot_of(
    name: Seq<char>,
    src: SocketAddr,
    dst: SocketAddr,
    t: DirTrackView,
    ring_oldest_us: Option<u64>,
) -> DirSnapshotView {
    DirSnapshotView {
        dir: name,
        src: addr_text(src),
        dst: addr_text(dst),
        next_frame_seq: boundary_seq(t.dir),
        max_table_size: t.dir.dec.max_size,
        capacity_observed: t.dir.dec.capacity_observed,
        table_size: table_bytes(t.dir.dec.table) as int,
        usable: refusal(t, ring_oldest_us) is None && snapshottable(t.dir),
        reason: refusal(t, ring_oldest_us),
        entries: Seq::new(t.dir.dec.table.len(), |i: int| entry_of(t.dir.dec.table[i])),
    }
}

/// The snapshot of one connection.
pub open spec fn conn_snapshot_of(c: ConnView, ring_oldest_us: Option<u64>) -> ConnSnapshotView {
    ConnSnapshotView {
        conn_id: c.id,
        client: addr_text(c.client),
        server: addr_text(c.server),
        first_seen_unix_us: c.first_seen_us,
        dirs: seq![
            dir_snapshot_of("c2s"@, c.client, c.server, c.c2s, ring_oldest_us),
            dir_snapshot_of("s2c"@, c.server, c.client, c.s2c, ring_oldest_us),
        ],
    }
}

/// Whether both directions of a connection can be used.
pub open spec fn conn_usable(c: ConnView, ring_oldest_us: Option<u64>) -> bool {
    let s = conn_snapshot_of(c, ring_oldest_us);
    s.dirs[0].usable && s.dirs[1].usable
}

/// How many of the connections can be used.
pub open spec fn usable_count(s: Seq<ConnView>, ring_oldest_us: Option<u64>) -> nat
    decreases s.len(),
{
    if s.len() == 0 {
        0
    } else {
        usable_count(s.drop_last(), ring_oldest_us) + if conn_usable(s.last(), ring_oldest_us) {
            1nat
        } else {
            0nat
        }
    }
}

/// The live connection table.
#[derive(Debug)]
pub struct Tracker {
    pub conns: Vec<Conn>,
    pub server_ports: Vec<u16>,
    pub max_conns: usize,
    pub idle_us: u64,
    pub table_limit: usize,
    pub segments: u64,
    pub evicted: u64,
    pub rejected_full: u64,
}

impl View for Tracker {
    type V = TrackerView;

    open spec fn view(&self) -> TrackerView {
        TrackerView {
            conns: conn_list_view(self.conns@),
            server_ports: self.server_ports@.to_set(),
            max_conns: self.max_conns,
            idle_us: self.idle_us,
            table_limit: self.table_limit,
            segments: self.segments,
            evicted: self.evicted,
            rejected_full: self.rejected_full,
        }
    }
}

impl Tracker {
    /// The connections are well-formed and in the order of their keys, and the
    /// ports are sorted.
    pub open spec fn wf(&self) -> bool {
        &&& forall|i: int| 0 <= i < self.conns@.len() ==> (#[trigger] self.conns@[i]).wf()
        &&& in_key_order(self@.conns)
        &&& ascending(self.server_ports@)
    }

    /// A tracker without connections. The idle time has to fit in microseconds.
    pub fn new(
        server_ports: Vec<u16>,
        max_conns: usize,
        idle_secs: u64,
        table_limit: usize,
    ) -> (r: Self)
        requires
            idle_secs * 1_000_000 <= u64::MAX,
        ensures
            r.wf(),
            r@ == (TrackerView {
                conns: Seq::empty(),
                server_ports: server_ports@.to_set(),
                max_conns,
                idle_us: (idle_secs * 1_000_000) as u64,
                table_limit,
                segments: 0,
                evicted: 0,
                rejected_full: 0,
            }),
    {
        // Sorted so the per-packet lookup is a binary search.
        let ports: Vec<u16> = sorted_ports(&server_ports);
        let r = Tracker {
            conns: Vec::new(),
            server_ports: ports,
            max_conns,
            idle_us: idle_secs * 1_000_000,
            table_limit,
            segments: 0,
            evicted: 0,
            rejected_full: 0,
        };
        assert(r@.conns =~= Seq::<ConnView>::empty());
        r
    }

    /// The number of connections tracked.
    pub fn len(&self) -> (r: usize)
        ensures
            r == self@.conns.len(),
    {
        self.conns.len()
    }

    /// Where the connection with key `k` is, or belongs.
    fn find(&self, k: &ConnKey) -> (r: (usize, bool))
        requires
            self.wf(),
        ensures
            r.0 == slot(self@.conns, *k),
            r.0 <= self@.conns.len(),
            r.1 == tracked_key(self@.conns, *k),
    {
        let ghost s = self@.conns;
        let mut lo: usize = 0;
        let mut hi: usize = self.conns.len();
        while lo < hi
            invariant
                lo <= hi <= s.len(),
                s == self@.conns,
                in_key_order(s),
                forall|i: int| 0 <= i < lo ==> key_lt(#[trigger] conn_key(s[i]), *k),
                forall|i: int| hi <= i < s.len() ==> !key_lt(#[trigger] conn_key(s[i]), *k),
            decreases hi - lo,
        {
            let mid: usize = lo + (hi - lo) / 2;
            let m: ConnKey = key_of(self.conns[mid].client, self.conns[mid].server);
            assert(m == conn_key(s[mid as int]));
            if key_is_lt(&m, k) {
                assert forall|i: int| 0 <= i < mid + 1 implies key_lt(
                    #[trigger] conn_key(s[i]),
                    *k,
                ) by {
                    if i < mid {
                        lemma_key_order(conn_key(s[i]), m, *k);
                    }
                }
                lo = mid + 1;
            } else {
                assert forall|i: int| mid <= i < s.len() implies !key_lt(
                    #[trigger] conn_key(s[i]),
                    *k,
                ) by {
                    if i > mid {
                        lemma_key_order(m, conn_key(s[i]), *k);
                    }
                }
                hi = mid;
            }
        }
        proof {
            lemma_slot(s, *k, 0, lo as int);
        }
        if lo < self.conns.len() {
            let c: ConnKey = key_of(self.conns[lo].client, self.conns[lo].server);
            (lo, c == *k)
        } else {
            (lo, false)
        }
    }

    /// A segment has arrived.
    pub fn on_segment(&mut self, seg: &TcpSegment<'_>, now_us: u64)
        requires
            old(self).wf(),
        ensures
            final(self).wf(),
            final(self)@ == segment_tracked(old(self)@, seg@, now_us),
    {
        self.segments = off_plus(self.segments, 1);
        let src = SocketAddr::new(seg.src_ip, seg.src_port);
        let dst = SocketAddr::new(seg.dst_ip, seg.dst_port);
        let k: ConnKey = key_of(src, dst);
        let fresh_syn: bool = seg.has(tcp_flags::SYN) && !seg.has(tcp_flags::ACK);
        // A bare SYN means a brand new connection. Ports get reused, so an
        // existing entry on this key is a previous connection and must be
        // replaced rather than continued.
        if fresh_syn {
            self.forget(&k);
        }
        let ghost conns = self@.conns;
        assert(conns == lookup_list(old(self)@.conns, seg@));
        let (i, found) = self.find(&k);
        if found {
            self.feed_at(i, seg, now_us);
            return;
        }
        if self.conns.len() >= self.max_conns {
            self.rejected_full = off_plus(self.rejected_full, 1);
            return;
        }
        let mut conn: Conn = self.open(seg, fresh_syn, now_us);
        conn.take_segment(seg, now_us);
        self.insert_at(i, conn);
    }

    /// Drop the connection with key `k`.
    fn forget(&mut self, k: &ConnKey)
        requires
            old(self).wf(),
        ensures
            final(self).wf(),
            final(self)@ == (TrackerView {
                conns: without_key(old(self)@.conns, *k),
                ..old(self)@
            }),
    {
        let (i, found) = self.find(k);
        if found {
            let ghost before = self@.conns;
            let _gone = self.conns.remove(i);
            proof {
                assert(self@.conns =~= before.remove(i as int));
                lemma_order_after_remove(before, i as int);
            }
        }
    }

    /// The segment belongs to the connection at position `i`.
    fn feed_at(&mut self, i: usize, seg: &TcpSegment<'_>, now_us: u64)
        requires
            old(self).wf(),
            i < old(self)@.conns.len(),
        ensures
            final(self).wf(),
            final(self)@ == (TrackerView {
                conns: old(self)@.conns.update(
                    i as int,
                    conn_fed(old(self)@.conns[i as int], seg@, now_us),
                ),
                ..old(self)@
            }),
    {
        let ghost before = self@.conns;
        let conn = &mut self.conns[i];
        conn.take_segment(seg, now_us);
        proof {
            assert(self@.conns =~= before.update(
                i as int,
                conn_fed(before[i as int], seg@, now_us),
            ));
            lemma_order_after_update(before, i as int, self@.conns[i as int]);
        }
    }

    /// A connection we did not know is found.
    fn open(&self, seg: &TcpSegment<'_>, fresh_syn: bool, now_us: u64) -> (r: Conn)
        requires
            self.wf(),
            fresh_syn == (seg_has(seg@, tcp_flags::SYN) && !seg_has(seg@, tcp_flags::ACK)),
        ensures
            r.wf(),
            r@ == opened_conn(self@, seg@, now_us),
    {
        let src = SocketAddr::new(seg.src_ip, seg.src_port);
        let dst = SocketAddr::new(seg.dst_ip, seg.dst_port);
        // Who is the client? A bare SYN is definitive; otherwise fall back to
        // the configured server ports; otherwise assume the sender.
        let from_server: bool = !fresh_syn && !contains_port(&self.server_ports, dst.port)
            && contains_port(&self.server_ports, src.port);
        let (client, server) = if from_server {
            (dst, src)
        } else {
            (src, dst)
        };
        let mut id: String = client.text();
        id.append("-");
        server.push_text(&mut id);
        id.append("#");
        push_decimal(&mut id, now_us);
        assert(id@ =~= conn_id(client, server, now_us));
        Conn {
            id,
            client,
            server,
            first_seen_us: now_us,
            last_seen_us: now_us,
            closed_at_us: None,
            // Only a bare SYN proves we have the stream from byte one.
            c2s: DirTrack::new(fresh_syn, fresh_syn, self.table_limit),
            s2c: DirTrack::new(fresh_syn, false, self.table_limit),
        }
    }

    /// Put a connection where its key belongs.
    fn insert_at(&mut self, i: usize, conn: Conn)
        requires
            old(self).wf(),
            conn.wf(),
            i == slot(old(self)@.conns, conn_key(conn@)),
            i <= old(self)@.conns.len(),
            !tracked_key(old(self)@.conns, conn_key(conn@)),
        ensures
            final(self).wf(),
            final(self)@ == (TrackerView {
                conns: old(self)@.conns.insert(i as int, conn@),
                ..old(self)@
            }),
    {
        let ghost before = self@.conns;
        let ghost old_conns = self.conns@;
        let ghost cv = conn@;
        self.conns.insert(i, conn);
        proof {
            assert(self@.conns =~= before.insert(i as int, cv));
            lemma_order_after_insert(before, cv);
            assert forall|j: int| 0 <= j < self.conns@.len() implies (
            #[trigger] self.conns@[j]).wf() by {
                if j < i {
                    assert(self.conns@[j] == old_conns[j]);
                } else if j > i {
                    assert(self.conns@[j] == old_conns[j - 1]);
                }
            }
        }
    }

    /// Drive timeouts and drop dead connections.
    pub fn tick(&mut self, now_us: u64)
        requires
            old(self).wf(),
        ensures
            final(self).wf(),
            final(self)@ == time_passed(old(self)@, now_us),
    {
        let ghost start = self@;
        let before: usize = self.conns.len();
        self.tick_all(now_us);
        self.retain_alive(now_us);
        self.evicted = off_plus(self.evicted, (before - self.conns.len()) as u64);
    }

    /// Every connection's time passes.
    fn tick_all(&mut self, now_us: u64)
        requires
            old(self).wf(),
        ensures
            final(self).wf(),
            final(self)@ == (TrackerView {
                conns: old(self)@.conns.map_values(|c: ConnView| conn_ticked(c, now_us)),
                ..old(self)@
            }),
    {
        let ghost start = self@;
        let mut i: usize = 0;
        while i < self.conns.len()
            invariant
                i <= self.conns@.len(),
                self@.conns.len() == start.conns.len(),
                self@ == (TrackerView { conns: self@.conns, ..start }),
                ascending(self.server_ports@),
                forall|j: int| 0 <= j < self.conns@.len() ==> (#[trigger] self.conns@[j]).wf(),
                forall|j: int|
                    0 <= j < i ==> #[trigger] self@.conns[j] == conn_ticked(
                        start.conns[j],
                        now_us,
                    ),
                forall|j: int|
                    i <= j < self@.conns.len() ==> #[trigger] self@.conns[j] == start.conns[j],
            decreases self.conns@.len() - i,
        {
            let ghost before = self@.conns;
            let ghost raw = self.conns@;
            let conn = &mut self.conns[i];
            conn.tick(now_us);
            proof {
                assert(self@.conns =~= before.update(
                    i as int,
                    conn_ticked(before[i as int], now_us),
                ));
                assert forall|j: int| 0 <= j < self.conns@.len() implies (
                #[trigger] self.conns@[j]).wf() by {
                    if j != i {
                        assert(self.conns@[j] == raw[j]);
                    }
                }
            }
            i += 1;
        }
        proof {
            let all = start.conns.map_values(|c: ConnView| conn_ticked(c, now_us));
            assert(self@.conns =~= all);
            assert forall|a: int, b: int| 0 <= a < b < all.len() implies key_lt(
                #[trigger] conn_key(all[a]),
                #[trigger] conn_key(all[b]),
            ) by {
                assert(conn_key(all[a]) == conn_key(start.conns[a]));
                assert(conn_key(all[b]) == conn_key(start.conns[b]));
            }
        }
    }

    /// Drop connections that are idle or closed for too long.
    fn retain_alive(&mut self, now_us: u64)
        requires
            old(self).wf(),
        ensures
            final(self).wf(),
            final(self)@ == (TrackerView {
                conns: old(self)@.conns.filter(
                    |c: ConnView| conn_alive(c, now_us, old(self)@.idle_us),
                ),
                ..old(self)@
            }),
            final(self)@.conns.len() <= old(self)@.conns.len(),
    {
        let ghost start = self@;
        let ghost alive = |c: ConnView| conn_alive(c, now_us, start.idle_us);
        let idle: u64 = self.idle_us;
        let mut i: usize = 0;
        assert(self@.conns.skip(0) =~= self@.conns);
        assert(self@.conns.take(0) + start.conns.filter(alive) =~= start.conns.filter(alive));
        while i < self.conns.len()
            invariant
                self.wf(),
                i <= self.conns@.len(),
                idle == start.idle_us,
                self@ == (TrackerView { conns: self@.conns, ..start }),
                self@.conns.len() <= start.conns.len(),
                alive == (|c: ConnView| conn_alive(c, now_us, start.idle_us)),
                start.conns.filter(alive) == self@.conns.take(i as int) + self@.conns.skip(
                    i as int,
                ).filter(alive),
            decreases self.conns@.len() - i,
        {
            let ghost before = self@.conns;
            proof {
                lemma_filter_front(before.skip(i as int), alive);
                assert(before.skip(i as int).skip(1) =~= before.skip(i + 1));
                assert(before.skip(i as int)[0] == before[i as int]);
            }
            if self.conns[i].is_alive(now_us, idle) {
                assert(before.take(i as int) + (seq![before[i as int]] + before.skip(
                    i + 1,
                ).filter(alive)) =~= before.take(i + 1) + before.skip(i + 1).filter(alive));
                i += 1;
            } else {
                let _gone = self.conns.remove(i);
                proof {
                    assert(self@.conns =~= before.remove(i as int));
                    lemma_order_after_remove(before, i as int);
                    assert(self@.conns.take(i as int) =~= before.take(i as int));
                    assert(self@.conns.skip(i as int) =~= before.skip(i + 1));
                }
            }
        }
        proof {
            assert(self@.conns.take(i as int) =~= self@.conns);
            let none = self@.conns.skip(i as int);
            assert(none =~= Seq::<ConnView>::empty());
            reveal(Seq::filter);
            assert(none.filter(alive) =~= Seq::<ConnView>::empty());
            assert(self@.conns + none.filter(alive) =~= self@.conns);
        }
    }

    /// The connections, in the order of their keys.
    pub fn iter(&self) -> (r: std::slice::Iter<'_, Conn>)
        ensures
            vstd::std_specs::iter::IteratorSpec::remaining(&r).unref() == self.conns@,
    {
        self.conns.iter()
    }

    /// Build the snapshot. `ring_oldest_us` is the timestamp of the oldest
    /// packet the capture will contain; a direction with pending bytes older
    /// than that is not usable, because the normalizer would be missing bytes
    /// the table already accounts for. Returns the connections, how many of them
    /// are usable and how many are degraded.
    pub fn snapshot(&self, ring_oldest_us: Option<u64>) -> (r: (
        Vec<ConnSnapshot>,
        usize,
        usize,
    ))
        requires
            self.wf(),
        ensures
            conns_view(r.0@) == self@.conns.map_values(
                |c: ConnView| conn_snapshot_of(c, ring_oldest_us),
            ),
            r.1 == usable_count(self@.conns, ring_oldest_us),
            r.1 + r.2 == self@.conns.len(),
    {
        let ghost s = self@.conns;
        let ghost f = |c: ConnView| conn_snapshot_of(c, ring_oldest_us);
        let mut out: Vec<ConnSnapshot> = Vec::new();
        let mut usable: usize = 0;
        let mut degraded: usize = 0;
        let mut i: usize = 0;
        while i < self.conns.len()
            invariant
                self.wf(),
                s == self@.conns,
                f == (|c: ConnView| conn_snapshot_of(c, ring_oldest_us)),
                i <= self.conns@.len(),
                conns_view(out@) == s.map_values(f).take(i as int),
                usable == usable_count(s.take(i as int), ring_oldest_us),
                usable + degraded == i,
            decreases self.conns@.len() - i,
        {
            let c = &self.conns[i];
            let ghost before = conns_view(out@);
            let snap = conn_snapshot(c, ring_oldest_us);
            proof {
                assert(s.take(i + 1).drop_last() =~= s.take(i as int));
                assert(s.take(i + 1).last() == c@);
                assert(s.map_values(f).take(i + 1) =~= s.map_values(f).take(i as int).push(f(c@)));
                assert(snap@.dirs[0] == snap.dirs@[0]@);
                assert(snap@.dirs[1] == snap.dirs@[1]@);
            }
            if snap.dirs[0].usable && snap.dirs[1].usable {
                usable += 1;
            } else {
                degraded += 1;
            }
            let ghost sv = snap@;
            out.push(snap);
            assert(conns_view(out@) =~= before.push(sv));
            i += 1;
        }
        proof {
            assert(s.take(s.len() as int) =~= s);
            assert(s.map_values(f).take(s.len() as int) =~= s.map_values(f));
        }
        (out, usable, degraded)
    }
}

/// The snapshot of one connection.
fn conn_snapshot(c: &Conn, ring_oldest_us: Option<u64>) -> (r: ConnSnapshot)
    requires
        c.wf(),
    ensures
        r@ == conn_snapshot_of(c@, ring_oldest_us),
        r.dirs@.len() == 2,
{
    let mut dirs: Vec<DirSnapshot> = Vec::new();
    dirs.push(dir_snapshot("c2s", &c.client, &c.server, &c.c2s, ring_oldest_us));
    dirs.push(dir_snapshot("s2c", &c.server, &c.client, &c.s2c, ring_oldest_us));
    let r = ConnSnapshot {
        conn_id: c.id.clone(),
        client: c.client.text(),
        server: c.server.text(),
        first_seen_unix_us: c.first_seen_us,
        dirs,
    };
    assert(r@.dirs =~= conn_snapshot_of(c@, ring_oldest_us).dirs);
    r
}

/// Why a direction's snapshot cannot be used, if it cannot.
fn refusal_reason(t: &DirTrack, ring_oldest_us: Option<u64>) -> (r: Option<String>)
    ensures
        match r {
            Some(s) => refusal(t@, ring_oldest_us) == Some(s@),
            None => refusal(t@, ring_oldest_us) is None,
        },
{
    let covered: bool = match (t.pending_since_us, ring_oldest_us) {
        (None, _) => true,
        (Some(p), Some(oldest)) => p >= oldest,
        // Pending bytes but no ring at all: the capture cannot contain them.
        (Some(_), None) => false,
    };
    if t.dir.dec.over_limit() {
        let mut s = String::from_str("peer negotiated a ");
        push_decimal(&mut s, t.dir.dec.max_size() as u64);
        s.append("-byte dynamic table, above --max-table-bytes; not tracked");
        Some(s)
    } else if t.dir.poisoned {
        Some(String::from_str("hpack state lost (packet gap or decode error)"))
    } else if t.dir.desynced || t.dir.awaits_preface() {
        Some(String::from_str("frame boundary unknown"))
    } else if !t.dir.dec.is_exact() {
        Some(String::from_str("joined mid-stream; dynamic table not fully observed"))
    } else if t.dir.has_open_block() {
        Some(String::from_str("in the middle of a header block"))
    } else if !covered {
        Some(String::from_str("partially received frame predates the capture ring"))
    } else {
        None
    }
}

/// The snapshot of one direction. It is usable exactly where there is no reason
/// against it, and then the direction can be snapshotted and the capture has the
/// bytes that it still needs.
fn dir_snapshot(
    name: &str,
    src: &SocketAddr,
    dst: &SocketAddr,
    t: &DirTrack,
    ring_oldest_us: Option<u64>,
) -> (r: DirSnapshot)
    requires
        t.wf(),
    ensures
        r@ == dir_snapshot_of(name@, *src, *dst, t@, ring_oldest_us),
        r.usable <==> r.reason is None,
        r.usable ==> snapshottable(t@.dir) && pending_covered(t@.pending_since_us, ring_oldest_us),
{
    let reason: Option<String> = refusal_reason(t, ring_oldest_us);
    let entries: Vec<Entry> = table_entries(&t.dir.dec);
    let r = DirSnapshot {
        dir: name.to_owned(),
        src: src.text(),
        dst: dst.text(),
        next_frame_seq: t.dir.next_frame_seq(),
        max_table_size: t.dir.dec.max_size(),
        capacity_observed: t.dir.dec.capacity_observed(),
        table_size: t.dir.dec.table_size(),
        usable: reason.is_none() && t.dir.is_snapshottable(),
        reason,
        entries,
    };
    assert(r@.entries =~= dir_snapshot_of(name@, *src, *dst, t@, ring_oldest_us).entries);
    r
}

/// The table of a decoder, written down.
fn table_entries(dec: &Decoder) -> (r: Vec<Entry>)
    ensures
        entries_view(r@) == Seq::new(dec@.table.len(), |i: int| entry_of(dec@.table[i])),
{
    let ghost all = Seq::new(dec@.table.len(), |i: int| entry_of(dec@.table[i]));
    let mut out: Vec<Entry> = Vec::new();
    let mut i: usize = 0;
    while i < dec.entry_count()
        invariant
            i <= dec@.table.len(),
            all == Seq::new(dec@.table.len(), |i: int| entry_of(dec@.table[i])),
            entries_view(out@) == all.take(i as int),
        decreases dec@.table.len() - i,
    {
        let f = dec.entry(i);
        let ghost before = entries_view(out@);
        let e = Entry { n: Str::from_bytes(&f.name), v: Str::from_bytes(&f.value) };
        let ghost ev = e@;
        out.push(e);
        proof {
            assert(entries_view(out@) =~= before.push(ev));
            assert(all.take(i + 1) =~= all.take(i as int).push(all[i as int]));
            assert(ev =~= all[i as int]);
        }
        i += 1;
    }
    assert(all.take(all.len() as int) =~= all);
    out
}

proof fn lemma_slot(s: Seq<ConnView>, k: ConnKey, i: int, n: int)
    requires
        0 <= i <= n <= s.len(),
        forall|j: int| i <= j < n ==> key_lt(#[trigger] conn_key(s[j]), k),
        n < s.len() ==> !key_lt(conn_key(s[n]), k),
    ensures
        slot_from(s, k, i) == n,
    decreases n - i,
{
    if i < n {
        assert(key_lt(conn_key(s[i]), k));
        lemma_slot(s, k, i + 1, n);
    }
}

/// What the slot of a key is.
pub proof fn lemma_slot_splits(s: Seq<ConnView>, k: ConnKey, i: int)
    requires
        0 <= i <= s.len(),
    ensures
        i <= slot_from(s, k, i) <= s.len(),
        forall|j: int| i <= j < slot_from(s, k, i) ==> key_lt(#[trigger] conn_key(s[j]), k),
        slot_from(s, k, i) < s.len() ==> !key_lt(conn_key(s[slot_from(s, k, i)]), k),
    decreases s.len() - i,
{
    if i < s.len() && key_lt(conn_key(s[i]), k) {
        lemma_slot_splits(s, k, i + 1);
    }
}

proof fn lemma_order_after_remove(s: Seq<ConnView>, i: int)
    requires
        in_key_order(s),
        0 <= i < s.len(),
    ensures
        in_key_order(s.remove(i)),
{
    let r = s.remove(i);
    assert forall|a: int, b: int| 0 <= a < b < r.len() implies key_lt(
        #[trigger] conn_key(r[a]),
        #[trigger] conn_key(r[b]),
    ) by {
        let x = if a < i {
            a
        } else {
            a + 1
        };
        let y = if b < i {
            b
        } else {
            b + 1
        };
        assert(r[a] == s[x] && r[b] == s[y]);
        assert(key_lt(conn_key(s[x]), conn_key(s[y])));
    }
}

proof fn lemma_order_after_update(s: Seq<ConnView>, i: int, c: ConnView)
    requires
        in_key_order(s),
        0 <= i < s.len(),
        conn_key(c) == conn_key(s[i]),
    ensures
        in_key_order(s.update(i, c)),
{
    let r = s.update(i, c);
    assert forall|a: int, b: int| 0 <= a < b < r.len() implies key_lt(
        #[trigger] conn_key(r[a]),
        #[trigger] conn_key(r[b]),
    ) by {
        assert(conn_key(r[a]) == conn_key(s[a]));
        assert(conn_key(r[b]) == conn_key(s[b]));
    }
}

proof fn lemma_order_after_insert(s: Seq<ConnView>, c: ConnView)
    requires
        in_key_order(s),
        !tracked_key(s, conn_key(c)),
    ensures
        in_key_order(s.insert(slot(s, conn_key(c)), c)),
{
    let k = conn_key(c);
    let i = slot(s, k);
    lemma_slot_splits(s, k, 0);
    let r = s.insert(i, c);
    assert forall|a: int, b: int| 0 <= a < b < r.len() implies key_lt(
        #[trigger] conn_key(r[a]),
        #[trigger] conn_key(r[b]),
    ) by {
        let x = if a < i {
            a
        } else {
            a - 1
        };
        let y = if b < i {
            b
        } else {
            b - 1
        };
        if a != i && b != i {
            assert(r[a] == s[x] && r[b] == s[y]);
            assert(key_lt(conn_key(s[x]), conn_key(s[y])));
        } else if b == i {
            assert(r[a] == s[a]);
            assert(key_lt(conn_key(s[a]), k));
        } else {
            assert(r[b] == s[y]);
            lemma_key_order(k, conn_key(s[i]), conn_key(s[y]));
            if y > i {
                assert(key_lt(conn_key(s[i]), conn_key(s[y])));
            }
        }
    }
}

proof fn lemma_filter_front(s: Seq<ConnView>, f: spec_fn(ConnView) -> bool)
    requires
        s.len() > 0,
    ensures
        s.filter(f) == (if f(s[0]) {
            seq![s[0]] + s.skip(1).filter(f)
        } else {
            s.skip(1).filter(f)
        }),
    decreases s.len(),
{
    reveal(Seq::filter);
    if s.len() == 1 {
        assert(s.drop_last() =~= Seq::<ConnView>::empty());
        assert(s.skip(1) =~= Seq::<ConnView>::empty());
        assert(s.skip(1).filter(f) =~= Seq::<ConnView>::empty());
        assert(s.drop_last().filter(f) =~= Seq::<ConnView>::empty());
        assert(s.last() == s[0]);
        if f(s[0]) {
            assert(s.filter(f) =~= seq![s[0]]);
            assert(seq![s[0]] + s.skip(1).filter(f) =~= seq![s[0]]);
        }
    } else {
        let p = s.drop_last();
        lemma_filter_front(p, f);
        assert(p.skip(1) =~= s.skip(1).drop_last());
        assert(p[0] == s[0]);
        assert(s.skip(1).last() == s.last());
        if f(s.last()) {
            assert(s.filter(f) == p.filter(f).push(s.last()));
            assert(s.skip(1).filter(f) == p.skip(1).filter(f).push(s.last()));
            if f(s[0]) {
                assert((seq![s[0]] + p.skip(1).filter(f)).push(s.last()) =~= seq![s[0]] + p.skip(
                    1,
                ).filter(f).push(s.last()));
            }
        }
    }
}

} // verus!
