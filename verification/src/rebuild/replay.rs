//! Replaying a capture: every direction is decoded, and the frames it is to
//! consist of in the output are collected.
use vstd::prelude::*;
use vstd::string::*;
use vstd::utf8::*;

use crate::addr::{addr_text, SocketAddr};
use crate::bytes::{
    add64, count_up, counted, lemma_count_nothing, lemma_counted_twice, off_plus, sub64,
};
use crate::conn::{
    fed, frames_view, midstream_state, seeded, start_state, BlockKind, DecodedBlock,
    DecodedBlockView, Direction, DirectionView, ProcessedFrame, ProcessedFrameView,
};
use crate::frame::{build_frame, frame_bytes, DEFAULT_MAX_FRAME_SIZE};
use crate::hpack::{fields_view, Field, FieldView};
use crate::keymap::KeyMap;
use crate::pkt::{
    parse_ethernet, segment_in, tcp_flags, Endpoint, EndpointView, SegmentView, TcpSegment,
};
use crate::reassembly::syn_noted;
use crate::rebuild::encode::{block_frames, encode_block, strings_view};
use crate::rebuild::seeds::{Route, SeedView, Seeds};
use crate::rebuild::{empty_report, Report};
use crate::snapshot::text_of;
use crate::tracker::{
    apply_capacities, capacities_applied, key_between, key_of, seg_dst, seg_has, seg_src, ConnKey,
};

verus! {

// ---------------------------------------------------------------------------
// State
// ---------------------------------------------------------------------------

/// One direction of a connection in the capture.
#[derive(Debug)]
pub struct DirState {
    pub dir: Direction,
    pub ep: Option<Endpoint>,
    /// Normalized frame bytes, tagged with the timestamp of the packet that
    /// completed the original frame.
    pub out: Vec<(u64, Vec<u8>)>,
    /// The direction has been touched, so a seed no longer applies.
    pub seeded: bool,
}

/// The same as a mathematical value.
#[verifier::ext_equal]
pub struct DirStateView {
    pub dir: DirectionView,
    pub ep: Option<EndpointView>,
    pub out: Seq<(u64, Seq<u8>)>,
    pub seeded: bool,
}

/// The stamped byte strings of a list, one by one.
pub open spec fn stamped_view(s: Seq<(u64, Vec<u8>)>) -> Seq<(u64, Seq<u8>)> {
    Seq::new(s.len(), |i: int| (s[i].0, s[i].1@))
}

/// The endpoint, where there is one.
pub open spec fn endpoint_view(e: Option<Endpoint>) -> Option<EndpointView> {
    match e {
        Some(e) => Some(e@),
        None => None,
    }
}

impl View for DirState {
    type V = DirStateView;

    open spec fn view(&self) -> DirStateView {
        DirStateView {
            dir: self.dir@,
            ep: endpoint_view(self.ep),
            out: stamped_view(self.out@),
            seeded: self.seeded,
        }
    }
}

/// A connection in the capture.
#[derive(Debug)]
pub struct ConnState {
    pub client: SocketAddr,
    pub server: SocketAddr,
    pub first_ts: u64,
    pub last_ts: u64,
    /// We saw this connection's SYN, so it began during the capture and its
    /// tables start empty. A snapshot entry on the same 5-tuple describes a
    /// *previous* connection and must not be applied.
    pub saw_syn: bool,
    pub c2s: DirState,
    pub s2c: DirState,
}

/// The same as a mathematical value.
#[verifier::ext_equal]
pub struct ConnStateView {
    pub client: SocketAddr,
    pub server: SocketAddr,
    pub first_ts: u64,
    pub last_ts: u64,
    pub saw_syn: bool,
    pub c2s: DirStateView,
    pub s2c: DirStateView,
}

impl View for ConnState {
    type V = ConnStateView;

    open spec fn view(&self) -> ConnStateView {
        ConnStateView {
            client: self.client,
            server: self.server,
            first_ts: self.first_ts,
            last_ts: self.last_ts,
            saw_syn: self.saw_syn,
            c2s: self.c2s@,
            s2c: self.s2c@,
        }
    }
}

/// A direction before its first packet.
pub open spec fn untouched(dir: DirectionView) -> DirStateView {
    DirStateView { dir, ep: None, out: Seq::empty(), seeded: false }
}

/// The connection that a segment is the first of. The sender counts as the
/// client.
pub open spec fn new_conn(s: SegmentView, ts: u64) -> ConnStateView {
    let fresh_syn = seg_has(s, tcp_flags::SYN) && !seg_has(s, tcp_flags::ACK);
    ConnStateView {
        client: seg_src(s),
        server: seg_dst(s),
        first_ts: ts,
        last_ts: ts,
        saw_syn: fresh_syn,
        c2s: untouched(
            if fresh_syn {
                start_state(true, true)
            } else {
                midstream_state(true)
            },
        ),
        s2c: untouched(
            if fresh_syn {
                start_state(true, false)
            } else {
                midstream_state(true)
            },
        ),
    }
}

// ---------------------------------------------------------------------------
// What comes out of frames
// ---------------------------------------------------------------------------

/// The byte strings stamped with a time.
pub open spec fn stamped(s: Seq<Seq<u8>>, ts: u64) -> Seq<(u64, Seq<u8>)> {
    Seq::new(s.len(), |i: int| (ts, s[i]))
}

/// What stands for a frame in the output. Header blocks are written anew once
/// they are complete; other frames pass through; what was not buffered is
/// missing.
pub open spec fn frame_emitted(f: ProcessedFrameView) -> Seq<Seq<u8>> {
    if f.truncated {
        Seq::empty()
    } else if f.is_header_frame {
        match f.decoded {
            None => Seq::empty(),
            Some(b) => block_frames(b, DEFAULT_MAX_FRAME_SIZE),
        }
    } else {
        seq![frame_bytes(f.hdr.typ, f.hdr.flags, f.hdr.stream_id, f.payload)]
    }
}

/// What stands for a list of frames.
pub open spec fn frames_emitted(fs: Seq<ProcessedFrameView>) -> Seq<Seq<u8>>
    decreases fs.len(),
{
    if fs.len() == 0 {
        Seq::empty()
    } else {
        frames_emitted(fs.drop_last()) + frame_emitted(fs.last())
    }
}

/// The report once a frame is counted.
pub open spec fn frame_counted(r: Report, f: ProcessedFrameView) -> Report {
    if f.truncated {
        Report { frames_dropped: counted(r.frames_dropped, 1), ..r }
    } else if f.is_header_frame && f.decoded is Some {
        let b = f.decoded->Some_0;
        let full = b.exact && b.unresolved == 0;
        Report {
            header_blocks: counted(r.header_blocks, 1),
            blocks_exact: if full {
                counted(r.blocks_exact, 1)
            } else {
                r.blocks_exact
            },
            blocks_partial: if full {
                r.blocks_partial
            } else {
                counted(r.blocks_partial, 1)
            },
            unresolved_refs: counted(r.unresolved_refs, b.unresolved),
            ..r
        }
    } else {
        r
    }
}

/// The report once a list of frames is counted.
pub open spec fn frames_counted(r: Report, fs: Seq<ProcessedFrameView>) -> Report
    decreases fs.len(),
{
    if fs.len() == 0 {
        r
    } else {
        frame_counted(frames_counted(r, fs.drop_last()), fs.last())
    }
}

/// The block that stands for one that could not be decoded. Stream 0 is illegal
/// for HEADERS, so it is on stream 1, to keep the frame structurally valid while
/// still standing out.
pub open spec fn failure_marker() -> DecodedBlockView {
    DecodedBlockView {
        stream_id: 1,
        fields: seq![
            FieldView {
                name: encode_utf8("@hpack-decode-failed"@),
                value: encode_utf8("header block could not be decoded"@),
                sensitive: false,
                unknown: false,
            },
        ],
        end_stream: false,
        kind: BlockKind::Headers,
        promised_stream_id: None,
        exact: false,
        unresolved: 0,
    }
}

/// The frames that stand for `n` blocks that could not be decoded.
pub open spec fn markers_emitted(n: nat) -> Seq<Seq<u8>>
    decreases n,
{
    if n == 0 {
        Seq::empty()
    } else {
        markers_emitted((n - 1) as nat) + block_frames(failure_marker(), DEFAULT_MAX_FRAME_SIZE)
    }
}

// ---------------------------------------------------------------------------
// Replay
// ---------------------------------------------------------------------------

/// The endpoint that a segment comes from.
pub open spec fn seg_endpoint(s: SegmentView) -> EndpointView {
    EndpointView {
        eth_dst: s.eth_dst,
        eth_src: s.eth_src,
        src_ip: s.src_ip,
        dst_ip: s.dst_ip,
        src_port: s.src_port,
        dst_port: s.dst_port,
    }
}

/// The seed that applies to the first packet of a direction. Never one where
/// the connection's SYN was seen: ports get reused, so a snapshot entry on this
/// tuple belongs to an earlier connection and applying it would mean a stale
/// table at a wrong offset.
pub open spec fn seed_for(
    seeds: Map<Route, SeedView>,
    saw_syn: bool,
    t: DirStateView,
    s: SegmentView,
) -> Option<SeedView> {
    let route = (addr_text(seg_src(s)), addr_text(seg_dst(s)));
    if t.seeded || saw_syn || !seeds.contains_key(route) {
        None
    } else {
        Some(seeds[route])
    }
}

/// A direction once it is touched: its endpoint is known, and a seed that
/// applies and can be used is applied, before any bytes are fed.
pub open spec fn touched(
    seeds: Map<Route, SeedView>,
    saw_syn: bool,
    t: DirStateView,
    s: SegmentView,
) -> DirStateView {
    let seed = seed_for(seeds, saw_syn, t, s);
    DirStateView {
        ep: if t.ep is None {
            Some(seg_endpoint(s))
        } else {
            t.ep
        },
        seeded: true,
        dir: if seed is Some && seed->Some_0.usable {
            let seed = seed->Some_0;
            seeded(t.dir, seed.entries, seed.max_size, seed.next_frame_seq)
        } else {
            t.dir
        },
        ..t
    }
}

/// What is said when a seed that applies cannot be used.
pub open spec fn seed_warning(
    seeds: Map<Route, SeedView>,
    saw_syn: bool,
    t: DirStateView,
    s: SegmentView,
) -> Option<Seq<char>> {
    let seed = seed_for(seeds, saw_syn, t, s);
    if seed is Some && !seed->Some_0.usable {
        let reason = match seed->Some_0.reason {
            Some(r) => r,
            None => "unspecified"@,
        };
        Some(
            addr_text(seg_src(s)) + " -> "@ + addr_text(seg_dst(s)) + ": snapshot not usable ("@
                + reason + "); decoding partially"@,
        )
    } else {
        None
    }
}

/// The direction as a segment finds it: touched, and told of a SYN.
pub open spec fn at_hand(
    seeds: Map<Route, SeedView>,
    saw_syn: bool,
    t: DirStateView,
    s: SegmentView,
) -> DirStateView {
    let t1 = touched(seeds, saw_syn, t, s);
    if seg_has(s, tcp_flags::SYN) {
        DirStateView {
            dir: DirectionView { reasm: syn_noted(t1.dir.reasm, s.seq), ..t1.dir },
            ..t1
        }
    } else {
        t1
    }
}

/// The frames that a segment's payload completes.
pub open spec fn payload_frames(t: DirStateView, s: SegmentView, ts: u64) -> Seq<
    ProcessedFrameView,
> {
    if s.payload.len() == 0 {
        Seq::empty()
    } else {
        fed(t.dir, s.seq, s.payload, ts).1
    }
}

/// How many blocks that a segment's payload completes could not be decoded.
pub open spec fn payload_failures(t: DirStateView, s: SegmentView, ts: u64) -> u64 {
    if s.payload.len() == 0 {
        0
    } else {
        sub64(fed(t.dir, s.seq, s.payload, ts).0.decode_errors, t.dir.decode_errors)
    }
}

/// The two directions once a payload has arrived in the first of them. A header
/// block that could not be decoded still has to be visible, or the rebuilt
/// capture would quietly lose a message.
pub open spec fn payload_taken(t: DirStateView, other: DirStateView, s: SegmentView, ts: u64) -> (
    DirStateView,
    DirStateView,
) {
    if s.payload.len() == 0 {
        (t, other)
    } else {
        let fs = payload_frames(t, s, ts);
        let failures = payload_failures(t, s, ts);
        (
            DirStateView {
                dir: fed(t.dir, s.seq, s.payload, ts).0,
                out: t.out + stamped(frames_emitted(fs), ts) + stamped(
                    markers_emitted(failures as nat),
                    ts,
                ),
                ..t
            },
            DirStateView {
                dir: DirectionView { dec: capacities_applied(other.dir.dec, fs), ..other.dir },
                ..other
            },
        )
    }
}

/// The report once a payload has arrived.
pub open spec fn payload_counted(r: Report, t: DirStateView, s: SegmentView, ts: u64) -> Report {
    let r1 = frames_counted(r, payload_frames(t, s, ts));
    Report {
        decode_failures: counted(r1.decode_failures, payload_failures(t, s, ts) as int),
        ..r1
    }
}

/// The report once a direction is touched.
pub open spec fn touch_counted(
    r: Report,
    seeds: Map<Route, SeedView>,
    saw_syn: bool,
    t: DirStateView,
    s: SegmentView,
) -> Report {
    let seed = seed_for(seeds, saw_syn, t, s);
    if seed is Some && seed->Some_0.usable {
        Report { conns_seeded: counted(r.conns_seeded, 1), ..r }
    } else {
        r
    }
}

/// The report once a segment has arrived.
#[verifier::opaque]
pub open spec fn segment_counted(
    r: Report,
    seeds: Map<Route, SeedView>,
    saw_syn: bool,
    t: DirStateView,
    s: SegmentView,
    ts: u64,
) -> Report {
    payload_counted(
        touch_counted(r, seeds, saw_syn, t, s),
        at_hand(seeds, saw_syn, t, s),
        s,
        ts,
    )
}

/// The direction that a segment arrives in.
pub open spec fn arriving(c: ConnStateView, s: SegmentView) -> DirStateView {
    if seg_src(s) == c.client {
        c.c2s
    } else {
        c.s2c
    }
}

/// The connection once a segment has arrived on it.
#[verifier::opaque]
pub open spec fn conn_replayed(
    seeds: Map<Route, SeedView>,
    c: ConnStateView,
    s: SegmentView,
    ts: u64,
) -> ConnStateView {
    let t = at_hand(seeds, c.saw_syn, arriving(c, s), s);
    if seg_src(s) == c.client {
        let (c2s, s2c) = payload_taken(t, c.s2c, s, ts);
        ConnStateView { last_ts: ts, c2s, s2c, ..c }
    } else {
        let (s2c, c2s) = payload_taken(t, c.c2s, s, ts);
        ConnStateView { last_ts: ts, c2s, s2c, ..c }
    }
}

/// A connection that a segment has arrived on has an endpoint.
proof fn lemma_replayed_has_endpoint(
    seeds: Map<Route, SeedView>,
    c: ConnStateView,
    s: SegmentView,
    ts: u64,
)
    ensures
        has_endpoint(conn_replayed(seeds, c, s, ts)),
{
    reveal(conn_replayed);
}

/// The state of a rebuild as a mathematical value.
#[verifier::ext_equal]
pub struct RebuilderView {
    pub report: Report,
    pub seeds: Map<Route, SeedView>,
    /// The connections in the order of their first packets. A tuple that is
    /// used again has several.
    pub conns: Seq<ConnStateView>,
    /// Which of them each tuple is used by now.
    pub at: Map<ConnKey, usize>,
}

/// A rebuild before its first packet.
pub open spec fn blank(seeds: Map<Route, SeedView>) -> RebuilderView {
    RebuilderView { report: empty_report(), seeds, conns: Seq::empty(), at: Map::empty() }
}

/// Whether a segment opens a connection: it is a bare SYN, which on a known tuple
/// means port reuse and thus a different connection, or its tuple is not known.
pub open spec fn opens_conn(r: RebuilderView, s: SegmentView) -> bool {
    let fresh_syn = seg_has(s, tcp_flags::SYN) && !seg_has(s, tcp_flags::ACK);
    fresh_syn || !r.at.contains_key(key_between(seg_src(s), seg_dst(s)))
}

/// The connection that a segment arrives on, as it finds it.
pub open spec fn conn_for(r: RebuilderView, s: SegmentView, ts: u64) -> ConnStateView {
    if opens_conn(r, s) {
        new_conn(s, ts)
    } else {
        r.conns[r.at[key_between(seg_src(s), seg_dst(s))] as int]
    }
}

/// The rebuild once a segment has been replayed.
pub open spec fn segment_replayed(r: RebuilderView, s: SegmentView, ts: u64) -> RebuilderView {
    let k = key_between(seg_src(s), seg_dst(s));
    let c = conn_for(r, s, ts);
    let opened = if opens_conn(r, s) {
        Report { conns: counted(r.report.conns, 1), ..r.report }
    } else {
        r.report
    };
    RebuilderView {
        report: segment_counted(opened, r.seeds, c.saw_syn, arriving(c, s), s, ts),
        conns: if opens_conn(r, s) {
            r.conns.push(conn_replayed(r.seeds, c, s, ts))
        } else {
            r.conns.update(r.at[k] as int, conn_replayed(r.seeds, c, s, ts))
        },
        at: if opens_conn(r, s) {
            r.at.insert(k, r.conns.len() as usize)
        } else {
            r.at
        },
        ..r
    }
}

/// The rebuild once a captured packet has been replayed.
pub open spec fn packet_replayed(r: RebuilderView, frame: Seq<u8>, ts: u64) -> RebuilderView {
    let seen = RebuilderView {
        report: Report { packets_in: add64(r.report.packets_in, 1), ..r.report },
        ..r
    };
    match segment_in(frame) {
        None => seen,
        Some(s) => segment_replayed(seen, s, ts),
    }
}

/// What a packet gave to report.
#[derive(Debug)]
pub struct Replayed {
    pub client: SocketAddr,
    pub server: SocketAddr,
    /// The packet went from the client to the server.
    pub c2s: bool,
    /// The frames it completed.
    pub frames: Vec<ProcessedFrame>,
    /// A seed that applied could not be used.
    pub warning: Option<String>,
}

impl DirState {
    /// The direction is well-formed.
    pub open spec fn wf(&self) -> bool {
        self.dir.wf()
    }

    fn new(dir: Direction) -> (r: Self)
        requires
            dir.wf(),
        ensures
            r.wf(),
            r@ == untouched(dir@),
    {
        let r = DirState { dir, ep: None, out: Vec::new(), seeded: false };
        assert(r@.out =~= Seq::<(u64, Seq<u8>)>::empty());
        r
    }

    /// Appends byte strings stamped with a time.
    fn emit(&mut self, parts: Vec<Vec<u8>>, ts: u64)
        requires
            old(self).wf(),
        ensures
            final(self).wf(),
            final(self)@ == (DirStateView {
                out: old(self)@.out + stamped(strings_view(parts@), ts),
                ..old(self)@
            }),
    {
        let ghost before = self@.out;
        let ghost all = strings_view(parts@);
        let mut left: Vec<Vec<u8>> = parts;
        let n: usize = left.len();
        let mut i: usize = 0;
        assert(before + stamped(all, ts).take(0) =~= before);
        while i < n
            invariant
                self.wf(),
                i <= n,
                n == left@.len(),
                n == all.len(),
                forall|j: int| i <= j < n ==> (#[trigger] left@[j])@ == all[j],
                self@ == (DirStateView {
                    out: before + stamped(all, ts).take(i as int),
                    ..old(self)@
                }),
            decreases n - i,
        {
            let ghost so_far = self@.out;
            let mut part: Vec<u8> = Vec::new();
            std::mem::swap(&mut part, &mut left[i]);
            let ghost pv = part@;
            self.out.push((ts, part));
            proof {
                assert(pv == all[i as int]);
                assert(self@.out =~= so_far.push((ts, pv)));
                assert(stamped(all, ts).take(i + 1) =~= stamped(all, ts).take(i as int).push(
                    (ts, pv),
                ));
                assert(self@.out =~= before + stamped(all, ts).take(i + 1));
            }
            i += 1;
        }
        assert(stamped(all, ts).take(n as int) =~= stamped(all, ts));
    }
}

proof fn lemma_stamped_concat(a: Seq<Seq<u8>>, b: Seq<Seq<u8>>, ts: u64)
    ensures
        stamped(a + b, ts) == stamped(a, ts) + stamped(b, ts),
{
    assert(stamped(a + b, ts) =~= stamped(a, ts) + stamped(b, ts));
}

/// The frames that stand for a frame in the output.
fn emitted_for(f: &ProcessedFrame) -> (r: Vec<Vec<u8>>)
    ensures
        strings_view(r@) == frame_emitted(f@),
{
    if f.truncated {
        let r: Vec<Vec<u8>> = Vec::new();
        assert(strings_view(r@) =~= Seq::<Seq<u8>>::empty());
        return r;
    }
    if f.is_header_frame {
        match &f.decoded {
            None => {
                let r: Vec<Vec<u8>> = Vec::new();
                assert(strings_view(r@) =~= Seq::<Seq<u8>>::empty());
                r
            },
            Some(b) => encode_block(b, DEFAULT_MAX_FRAME_SIZE),
        }
    } else {
        let mut r: Vec<Vec<u8>> = Vec::new();
        r.push(build_frame(f.hdr.typ, f.hdr.flags, f.hdr.stream_id, &f.payload));
        assert(strings_view(r@) =~= frame_emitted(f@));
        r
    }
}

/// Counts a frame.
fn count_frame(rep: &mut Report, f: &ProcessedFrame)
    ensures
        *final(rep) == frame_counted(*old(rep), f@),
{
    if f.truncated {
        rep.frames_dropped = count_up(rep.frames_dropped, 1);
    } else if f.is_header_frame {
        if let Some(b) = &f.decoded {
            rep.header_blocks = count_up(rep.header_blocks, 1);
            if b.exact && b.unresolved == 0 {
                rep.blocks_exact = count_up(rep.blocks_exact, 1);
            } else {
                rep.blocks_partial = count_up(rep.blocks_partial, 1);
            }
            rep.unresolved_refs = count_up(rep.unresolved_refs, b.unresolved);
        }
    }
}

/// The frames that stand for a block that could not be decoded.
fn marker_frames() -> (r: Vec<Vec<u8>>)
    ensures
        strings_view(r@) == block_frames(failure_marker(), DEFAULT_MAX_FRAME_SIZE),
{
    let mut fields: Vec<Field> = Vec::new();
    fields.push(
        Field::new(
            "@hpack-decode-failed".as_bytes(),
            "header block could not be decoded".as_bytes(),
        ),
    );
    let marker = DecodedBlock {
        stream_id: 1,
        fields,
        end_stream: false,
        kind: BlockKind::Headers,
        promised_stream_id: None,
        exact: false,
        unresolved: 0,
    };
    assert(marker@.fields =~= failure_marker().fields);
    assert(marker@ == failure_marker());
    encode_block(&marker, DEFAULT_MAX_FRAME_SIZE)
}

/// A segment arrives in the first direction.
fn take_segment(
    t: &mut DirState,
    other: &mut DirState,
    rep: &mut Report,
    seeds: &Seeds,
    saw_syn: bool,
    seg: &TcpSegment<'_>,
    ts: u64,
) -> (r: (Vec<ProcessedFrame>, Option<String>))
    requires
        old(t).wf(),
        old(other).wf(),
        seeds.wf(),
    ensures
        final(t).wf(),
        final(other).wf(),
        (final(t)@, final(other)@) == payload_taken(
            at_hand(seeds@, saw_syn, old(t)@, seg@),
            old(other)@,
            seg@,
            ts,
        ),
        *final(rep) == segment_counted(*old(rep), seeds@, saw_syn, old(t)@, seg@, ts),
        frames_view(r.0@) == payload_frames(at_hand(seeds@, saw_syn, old(t)@, seg@), seg@, ts),
        text_of(r.1) == seed_warning(seeds@, saw_syn, old(t)@, seg@),
{
    let warning: Option<String> = touch(t, rep, seeds, saw_syn, seg);
    if seg.has(tcp_flags::SYN) {
        t.dir.reasm.note_syn(seg.seq);
    }
    assert(t@ == at_hand(seeds@, saw_syn, old(t)@, seg@));
    let frames = take_payload(t, other, rep, seg, ts);
    proof {
        reveal(segment_counted);
    }
    (frames, warning)
}

/// A payload arrives in the first direction.
fn take_payload(
    t: &mut DirState,
    other: &mut DirState,
    rep: &mut Report,
    seg: &TcpSegment<'_>,
    ts: u64,
) -> (r: Vec<ProcessedFrame>)
    requires
        old(t).wf(),
        old(other).wf(),
    ensures
        final(t).wf(),
        final(other).wf(),
        (final(t)@, final(other)@) == payload_taken(old(t)@, old(other)@, seg@, ts),
        *final(rep) == payload_counted(*old(rep), old(t)@, seg@, ts),
        frames_view(r@) == payload_frames(old(t)@, seg@, ts),
{
    if seg.payload.len() == 0 {
        let none: Vec<ProcessedFrame> = Vec::new();
        proof {
            assert(frames_view(none@) =~= Seq::<ProcessedFrameView>::empty());
            lemma_count_nothing(rep.decode_failures);
        }
        return none;
    }
    let before: u64 = t.dir.decode_errors;
    let frames: Vec<ProcessedFrame> = t.dir.feed(seg.seq, seg.payload, ts);
    let failures: u64 = t.dir.decode_errors.wrapping_sub(before);
    assert(failures == payload_failures(old(t)@, seg@, ts));
    emit_frames(t, rep, &frames, ts);
    emit_markers(t, rep, failures, ts);
    apply_capacities(&mut other.dir.dec, &frames);
    frames
}

/// The direction is touched by its packet.
fn touch(
    t: &mut DirState,
    rep: &mut Report,
    seeds: &Seeds,
    saw_syn: bool,
    seg: &TcpSegment<'_>,
) -> (r: Option<String>)
    requires
        old(t).wf(),
        seeds.wf(),
    ensures
        final(t).wf(),
        final(t)@ == touched(seeds@, saw_syn, old(t)@, seg@),
        *final(rep) == touch_counted(*old(rep), seeds@, saw_syn, old(t)@, seg@),
        text_of(r) == seed_warning(seeds@, saw_syn, old(t)@, seg@),
{
    if t.ep.is_none() {
        t.ep = Some(
            Endpoint {
                eth_dst: seg.eth_dst,
                eth_src: seg.eth_src,
                src_ip: seg.src_ip,
                dst_ip: seg.dst_ip,
                src_port: seg.src_port,
                dst_port: seg.dst_port,
            },
        );
    }
    // Seed the moment we first touch a direction, before any bytes are fed.
    // Never seed a connection whose SYN we saw: ports get reused, so a snapshot
    // entry on this tuple belongs to an earlier connection and applying it
    // would mean a stale table at a wrong offset.
    if t.seeded {
        return None;
    }
    t.seeded = true;
    if saw_syn {
        return None;
    }
    let src: String = SocketAddr::new(seg.src_ip, seg.src_port).text();
    let dst: String = SocketAddr::new(seg.dst_ip, seg.dst_port).text();
    match seeds.get(src.as_str(), dst.as_str()) {
        None => None,
        Some(seed) => {
            if seed.usable {
                let entries: Vec<Field> = copy_fields(&seed.entries);
                t.dir.seed_from_snapshot(entries, seed.max_size, seed.next_frame_seq);
                rep.conns_seeded = count_up(rep.conns_seeded, 1);
                None
            } else {
                let mut w: String = src;
                w.append(" -> ");
                w.append(dst.as_str());
                w.append(": snapshot not usable (");
                match &seed.reason {
                    Some(why) => w.append(why.as_str()),
                    None => w.append("unspecified"),
                }
                w.append("); decoding partially");
                Some(w)
            }
        },
    }
}

/// A copy of the fields.
fn copy_fields(fields: &[Field]) -> (r: Vec<Field>)
    ensures
        fields_view(r@) == fields_view(fields@),
{
    let mut out: Vec<Field> = Vec::new();
    let mut i: usize = 0;
    while i < fields.len()
        invariant
            i <= fields@.len(),
            fields_view(out@) == fields_view(fields@).take(i as int),
        decreases fields@.len() - i,
    {
        let ghost before = fields_view(out@);
        let f: Field = fields[i].clone();
        let ghost fv = f@;
        out.push(f);
        proof {
            assert(fields_view(out@) =~= before.push(fv));
            assert(fields_view(fields@).take(i + 1) =~= fields_view(fields@).take(i as int).push(
                fv,
            ));
        }
        i += 1;
    }
    assert(fields_view(fields@).take(fields@.len() as int) =~= fields_view(fields@));
    out
}

/// Emits what stands for the frames, and counts them.
fn emit_frames(t: &mut DirState, rep: &mut Report, frames: &[ProcessedFrame], ts: u64)
    requires
        old(t).wf(),
    ensures
        final(t).wf(),
        final(t)@ == (DirStateView {
            out: old(t)@.out + stamped(frames_emitted(frames_view(frames@)), ts),
            ..old(t)@
        }),
        *final(rep) == frames_counted(*old(rep), frames_view(frames@)),
{
    let ghost fs = frames_view(frames@);
    let ghost start = t@.out;
    let mut i: usize = 0;
    assert(start + stamped(frames_emitted(fs.take(0)), ts) =~= start);
    while i < frames.len()
        invariant
            t.wf(),
            i <= frames@.len(),
            fs == frames_view(frames@),
            t@ == (DirStateView {
                out: start + stamped(frames_emitted(fs.take(i as int)), ts),
                ..old(t)@
            }),
            *rep == frames_counted(*old(rep), fs.take(i as int)),
        decreases frames@.len() - i,
    {
        let f = &frames[i];
        proof {
            assert(fs.take(i + 1).drop_last() =~= fs.take(i as int));
            assert(fs.take(i + 1).last() == f@);
            lemma_stamped_concat(frames_emitted(fs.take(i as int)), frame_emitted(f@), ts);
        }
        let ghost before = t@.out;
        count_frame(rep, f);
        t.emit(emitted_for(f), ts);
        assert(t@.out =~= start + stamped(frames_emitted(fs.take(i + 1)), ts));
        i += 1;
    }
    assert(fs.take(fs.len() as int) =~= fs);
}

/// Emits what stands for `n` blocks that could not be decoded, and counts them.
fn emit_markers(t: &mut DirState, rep: &mut Report, n: u64, ts: u64)
    requires
        old(t).wf(),
    ensures
        final(t).wf(),
        final(t)@ == (DirStateView {
            out: old(t)@.out + stamped(markers_emitted(n as nat), ts),
            ..old(t)@
        }),
        *final(rep) == (Report {
            decode_failures: counted(old(rep).decode_failures, n as int),
            ..*old(rep)
        }),
{
    let ghost start = t@.out;
    let mut i: u64 = 0;
    proof {
        assert(start + stamped(markers_emitted(0), ts) =~= start);
        lemma_count_nothing(rep.decode_failures);
    }
    while i < n
        invariant
            t.wf(),
            i <= n,
            t@ == (DirStateView {
                out: start + stamped(markers_emitted(i as nat), ts),
                ..old(t)@
            }),
            *rep == (Report {
                decode_failures: counted(old(rep).decode_failures, i as int),
                ..*old(rep)
            }),
        decreases n - i,
    {
        let ghost one = block_frames(failure_marker(), DEFAULT_MAX_FRAME_SIZE);
        proof {
            lemma_stamped_concat(markers_emitted(i as nat), one, ts);
            lemma_counted_twice(old(rep).decode_failures, i as int, 1);
        }
        t.emit(marker_frames(), ts);
        rep.decode_failures = count_up(rep.decode_failures, 1);
        assert(t@.out =~= start + stamped(markers_emitted((i + 1) as nat), ts));
        i += 1;
    }
}

impl ConnState {
    /// Both directions are well-formed.
    pub open spec fn wf(&self) -> bool {
        self.c2s.wf() && self.s2c.wf()
    }

    fn open(seg: &TcpSegment<'_>, fresh_syn: bool, ts: u64) -> (r: Self)
        requires
            fresh_syn == (seg_has(seg@, tcp_flags::SYN) && !seg_has(seg@, tcp_flags::ACK)),
        ensures
            r.wf(),
            r@ == new_conn(seg@, ts),
    {
        ConnState {
            client: SocketAddr::new(seg.src_ip, seg.src_port),
            server: SocketAddr::new(seg.dst_ip, seg.dst_port),
            first_ts: ts,
            last_ts: ts,
            saw_syn: fresh_syn,
            c2s: DirState::new(
                if fresh_syn {
                    Direction::from_connection_start(true, true)
                } else {
                    Direction::joined_midstream(true)
                },
            ),
            s2c: DirState::new(
                if fresh_syn {
                    Direction::from_connection_start(true, false)
                } else {
                    Direction::joined_midstream(true)
                },
            ),
        }
    }

    fn take_segment(
        &mut self,
        rep: &mut Report,
        seeds: &Seeds,
        seg: &TcpSegment<'_>,
        ts: u64,
    ) -> (r: Replayed)
        requires
            old(self).wf(),
            seeds.wf(),
        ensures
            final(self).wf(),
            final(self)@ == conn_replayed(seeds@, old(self)@, seg@, ts),
            *final(rep) == segment_counted(
                *old(rep),
                seeds@,
                old(self)@.saw_syn,
                arriving(old(self)@, seg@),
                seg@,
                ts,
            ),
            reported(r, seeds@, old(self)@, seg@, ts),
    {
        proof {
            reveal(conn_replayed);
        }
        self.last_ts = ts;
        let src = SocketAddr::new(seg.src_ip, seg.src_port);
        let saw_syn: bool = self.saw_syn;
        let c2s: bool = src == self.client;
        let (frames, warning) = if c2s {
            take_segment(&mut self.c2s, &mut self.s2c, rep, seeds, saw_syn, seg, ts)
        } else {
            take_segment(&mut self.s2c, &mut self.c2s, rep, seeds, saw_syn, seg, ts)
        };
        Replayed { client: self.client, server: self.server, c2s, frames, warning }
    }
}

/// Whether `r` is what a segment that finds its connection in state `c` gives to
/// report.
pub open spec fn reported(
    r: Replayed,
    seeds: Map<Route, SeedView>,
    c: ConnStateView,
    s: SegmentView,
    ts: u64,
) -> bool {
    &&& r.client == c.client
    &&& r.server == c.server
    &&& r.c2s == (seg_src(s) == c.client)
    &&& frames_view(r.frames@) == payload_frames(
        at_hand(seeds, c.saw_syn, arriving(c, s), s),
        s,
        ts,
    )
    &&& text_of(r.warning) == seed_warning(seeds, c.saw_syn, arriving(c, s), s)
}

/// A rebuild under way.
#[derive(Debug)]
pub struct Rebuilder {
    pub report: Report,
    pub seeds: Seeds,
    /// The connections in the order of their first packets.
    pub conns: Vec<ConnState>,
    /// Which of them each tuple is used by now.
    pub at: KeyMap<usize>,
}

/// The connections of a list, one by one.
pub open spec fn conn_seq_view(s: Seq<ConnState>) -> Seq<ConnStateView> {
    Seq::new(s.len(), |i: int| s[i]@)
}

impl View for Rebuilder {
    type V = RebuilderView;

    open spec fn view(&self) -> RebuilderView {
        RebuilderView {
            report: self.report,
            seeds: self.seeds@,
            conns: conn_seq_view(self.conns@),
            at: self.at@,
        }
    }
}

impl Rebuilder {
    /// The parts are well-formed, every connection has an endpoint, and every
    /// tuple has its connection.
    pub open spec fn wf(&self) -> bool {
        &&& self.seeds.wf()
        &&& self.at.wf()
        &&& forall|i: int|
            0 <= i < self.conns@.len() ==> (#[trigger] self.conns@[i]).wf() && has_endpoint(
                self.conns@[i]@,
            )
        &&& forall|k: ConnKey| #[trigger]
            self.at@.contains_key(k) ==> self.at@[k] < self.conns@.len()
    }

    /// A rebuild that has seen nothing.
    pub fn new(seeds: Seeds) -> (r: Self)
        requires
            seeds.wf(),
        ensures
            r.wf(),
            r@ == blank(seeds@),
    {
        let r = Rebuilder {
            report: Report::default(),
            seeds,
            conns: Vec::new(),
            at: KeyMap::new(),
        };
        assert(r@.conns =~= Seq::<ConnStateView>::empty());
        r
    }

    /// A captured packet is replayed.
    pub fn on_packet(&mut self, frame: &[u8], ts: u64) -> (r: Option<Replayed>)
        requires
            old(self).wf(),
        ensures
            final(self).wf(),
            final(self)@ == packet_replayed(old(self)@, frame@, ts),
            match r {
                None => segment_in(frame@) is None,
                Some(n) => segment_in(frame@) is Some && ({
                    let s = segment_in(frame@)->Some_0;
                    reported(n, old(self)@.seeds, conn_for(old(self)@, s, ts), s, ts)
                }),
            },
    {
        self.report.packets_in = off_plus(self.report.packets_in, 1);
        match parse_ethernet(frame) {
            None => None,
            Some(seg) => Some(self.on_segment(&seg, ts)),
        }
    }

    fn on_segment(&mut self, seg: &TcpSegment<'_>, ts: u64) -> (r: Replayed)
        requires
            old(self).wf(),
        ensures
            final(self).wf(),
            final(self)@ == segment_replayed(old(self)@, seg@, ts),
            reported(r, old(self)@.seeds, conn_for(old(self)@, seg@, ts), seg@, ts),
    {
        let src = SocketAddr::new(seg.src_ip, seg.src_port);
        let dst = SocketAddr::new(seg.dst_ip, seg.dst_port);
        let k: ConnKey = key_of(src, dst);
        let fresh_syn: bool = seg.has(tcp_flags::SYN) && !seg.has(tcp_flags::ACK);
        let ghost before = self.conns@;
        proof {
            lemma_replayed_has_endpoint(self@.seeds, conn_for(self@, seg@, ts), seg@, ts);
        }
        if fresh_syn || !self.at.contains(&k) {
            // On a known tuple this is port reuse: a different connection. The
            // one before it stays as it is.
            let mut c: ConnState = ConnState::open(seg, fresh_syn, ts);
            self.at.insert(k, self.conns.len());
            self.report.conns = count_up(self.report.conns, 1);
            let r = c.take_segment(&mut self.report, &self.seeds, seg, ts);
            let ghost cv = c@;
            self.conns.push(c);
            proof {
                assert(self@.conns =~= conn_seq_view(before).push(cv));
            }
            r
        } else {
            let i: usize = *self.at.get(&k);
            let c = &mut self.conns[i];
            let r = c.take_segment(&mut self.report, &self.seeds, seg, ts);
            proof {
                assert(self@.conns =~= conn_seq_view(before).update(i as int, self.conns@[i as int]@));
            }
            r
        }
    }
}

/// Whether the endpoint of at least one direction is known.
pub open spec fn has_endpoint(c: ConnStateView) -> bool {
    c.c2s.ep is Some || c.s2c.ep is Some
}

} // verus!
