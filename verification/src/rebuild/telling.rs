//! What was taken off a capture stands in its rebuilt form, in every direction of
//! every connection, and can be read there without any table.
use vstd::prelude::*;
use vstd::utf8::*;

use crate::bytes::add64;
use crate::conn::laws::lemma_parsed_unfolds;
use crate::conn::{parsed, DirectionView, ProcessedFrameView};
use crate::frame::{FrameHeader, FrameType, PREFACE};
use crate::pkt::{segment_in, SegmentView};
use crate::rebuild::counting::placed;
use crate::rebuild::encode::{joined, ready};
use crate::rebuild::laws::{
    contents, fields_encodable, law_output_decodes_standalone, law_rebuilt_client_stream_decodes,
    law_taken_frames_can_be_written, lemma_joined_concat, passable, promise_known, Content,
};
use crate::rebuild::replay::{
    arriving, at_hand, blank, conn_for, conn_replayed, failure_marker, frame_emitted,
    frames_emitted, markers_emitted, opens_conn, packet_replayed, payload_failures, payload_frames,
    payload_taken, segment_replayed, ConnStateView, DirStateView, RebuilderView,
};
use crate::rebuild::seeds::{Route, SeedView};
use crate::rebuild::synth::{client_stream, rebuilt_plan};
use crate::rebuild::synth_laws::{countable, law_streams_arrive_whole, sent_bytes, stream_bytes};
use crate::rebuild::Report;
use crate::tracker::{key_between, seg_dst, seg_src};

verus! {

/// The frames that the directions of a connection took off a capture, with a frame
/// in place of each header block that could not be decoded.
#[verifier::ext_equal]
pub struct TakenView {
    pub c2s: Seq<ProcessedFrameView>,
    pub s2c: Seq<ProcessedFrameView>,
}

/// The frame in place of a header block that could not be decoded.
pub open spec fn marker_frame() -> ProcessedFrameView {
    ProcessedFrameView {
        hdr: FrameHeader { len: 0, typ: FrameType::HEADERS, flags: 0, stream_id: 1 },
        payload: Seq::empty(),
        start_off: 0,
        start_seq: 0,
        decoded: Some(failure_marker()),
        is_header_frame: true,
        truncated: false,
        settings_table_size: None,
    }
}

/// What a segment adds to what its direction took: the frames that it completes,
/// and a marker for each header block in it that could not be decoded.
pub open spec fn frames_told(t: DirStateView, s: SegmentView, ts: u64) -> Seq<
    ProcessedFrameView,
> {
    payload_frames(t, s, ts) + Seq::new(
        payload_failures(t, s, ts) as nat,
        |i: int| marker_frame(),
    )
}

/// What a connection took, once a segment has arrived on it.
pub open spec fn conn_told(
    h: TakenView,
    seeds: Map<Route, SeedView>,
    c: ConnStateView,
    s: SegmentView,
    ts: u64,
) -> TakenView {
    let told = frames_told(at_hand(seeds, c.saw_syn, arriving(c, s), s), s, ts);
    if seg_src(s) == c.client {
        TakenView { c2s: h.c2s + told, ..h }
    } else {
        TakenView { s2c: h.s2c + told, ..h }
    }
}

/// What all connections took, once a captured packet has been replayed.
pub open spec fn packet_told(
    h: Seq<TakenView>,
    r: RebuilderView,
    frame: Seq<u8>,
    ts: u64,
) -> Seq<TakenView> {
    match segment_in(frame) {
        None => h,
        Some(s) => {
            let c = conn_for(r, s, ts);
            if opens_conn(r, s) {
                let none = TakenView { c2s: Seq::empty(), s2c: Seq::empty() };
                h.push(conn_told(none, r.seeds, c, s, ts))
            } else {
                let i = r.at[key_between(seg_src(s), seg_dst(s))] as int;
                h.update(i, conn_told(h[i], r.seeds, c, s, ts))
            }
        },
    }
}

/// Whether the fields of every header block that a packet completes are of a size
/// that can be written.
pub open spec fn packet_writable(r: RebuilderView, frame: Seq<u8>, ts: u64) -> bool {
    segment_in(frame) matches Some(s) ==> {
        let c = conn_for(r, s, ts);
        let fs = payload_frames(at_hand(r.seeds, c.saw_syn, arriving(c, s), s), s, ts);
        forall|i: int| 0 <= i < fs.len() ==> fields_encodable(#[trigger] fs[i])
    }
}

/// The byte strings of a list without their times.
pub open spec fn texts(out: Seq<(u64, Seq<u8>)>) -> Seq<Seq<u8>> {
    Seq::new(out.len(), |i: int| out[i].1)
}

/// Whether every frame of a list can stand in the output.
pub open spec fn all_passable(fs: Seq<ProcessedFrameView>) -> bool {
    forall|i: int| 0 <= i < fs.len() ==> passable(#[trigger] fs[i])
}

/// Whether a direction's output is exactly what the frames it took became.
pub open spec fn dir_told(t: DirStateView, fs: Seq<ProcessedFrameView>) -> bool {
    &&& texts(t.out) == frames_emitted(fs)
    &&& all_passable(fs)
    &&& promise_known(t.dir)
}

/// Whether the output of every connection is exactly what it took.
pub open spec fn all_told(r: RebuilderView, h: Seq<TakenView>) -> bool {
    &&& placed(r)
    &&& h.len() == r.conns.len()
    &&& forall|i: int|
        0 <= i < h.len() ==> dir_told(r.conns[i].c2s, (#[trigger] h[i]).c2s) && dir_told(
            r.conns[i].s2c,
            h[i].s2c,
        )
}

proof fn lemma_emitted_concat(a: Seq<ProcessedFrameView>, b: Seq<ProcessedFrameView>)
    ensures
        frames_emitted(a + b) == frames_emitted(a) + frames_emitted(b),
    decreases b.len(),
{
    if b.len() == 0 {
        assert(a + b =~= a);
        assert(frames_emitted(a) + frames_emitted(b) =~= frames_emitted(a));
    } else {
        lemma_emitted_concat(a, b.drop_last());
        assert((a + b).drop_last() =~= a + b.drop_last());
        assert(frames_emitted(a) + frames_emitted(b.drop_last()) + frame_emitted(b.last())
            =~= frames_emitted(a) + (frames_emitted(b.drop_last()) + frame_emitted(b.last())));
    }
}

proof fn lemma_markers_are_frames(n: nat)
    ensures
        frames_emitted(Seq::new(n, |i: int| marker_frame())) == markers_emitted(n),
    decreases n,
{
    let fs = Seq::new(n, |i: int| marker_frame());
    if n > 0 {
        let m = (n - 1) as nat;
        lemma_markers_are_frames(m);
        assert(fs.drop_last() =~= Seq::new(m, |i: int| marker_frame()));
    }
}

proof fn lemma_marker_passable()
    ensures
        passable(marker_frame()),
{
    let f = failure_marker().fields[0];
    reveal_strlit("@hpack-decode-failed");
    reveal_strlit("header block could not be decoded");
    is_ascii_chars_encode_utf8("@hpack-decode-failed"@);
    is_ascii_chars_encode_utf8("header block could not be decoded"@);
    assert(f.name.len() == 20);
    assert(f.value.len() == 33);
}

/// What a payload adds to a direction's output is what it adds to what it took.
proof fn lemma_payload_told(
    t: DirStateView,
    other: DirStateView,
    fs: Seq<ProcessedFrameView>,
    gs: Seq<ProcessedFrameView>,
    s: SegmentView,
    ts: u64,
)
    requires
        dir_told(t, fs),
        dir_told(other, gs),
        forall|i: int|
            0 <= i < payload_frames(t, s, ts).len() ==> fields_encodable(
                #[trigger] payload_frames(t, s, ts)[i],
            ),
    ensures
        dir_told(payload_taken(t, other, s, ts).0, fs + frames_told(t, s, ts)),
        dir_told(payload_taken(t, other, s, ts).1, gs),
{
    let new = payload_frames(t, s, ts);
    let n = payload_failures(t, s, ts) as nat;
    let marks = Seq::new(n, |i: int| marker_frame());
    let told = frames_told(t, s, ts);
    let after = payload_taken(t, other, s, ts).0;
    lemma_emitted_concat(fs, told);
    lemma_emitted_concat(new, marks);
    lemma_markers_are_frames(n);
    lemma_marker_passable();
    if s.payload.len() > 0 {
        law_taken_frames_can_be_written(t.dir, s.seq, s.payload, ts);
        assert(texts(after.out) =~= texts(t.out) + frames_emitted(new) + markers_emitted(n));
        assert(texts(after.out) =~= frames_emitted(fs) + (frames_emitted(new) + markers_emitted(
            n,
        )));
    } else {
        assert(told =~= Seq::<ProcessedFrameView>::empty());
        assert(fs + told =~= fs);
    }
    let all = fs + told;
    assert forall|i: int| 0 <= i < all.len() implies passable(#[trigger] all[i]) by {
        if i < fs.len() {
            assert(all[i] == fs[i]);
        } else if i < fs.len() + new.len() {
            assert(all[i] == new[i - fs.len()]);
        } else {
            assert(all[i] == marker_frame());
        }
    }
}

proof fn lemma_conn_told(
    h: TakenView,
    seeds: Map<Route, SeedView>,
    c: ConnStateView,
    s: SegmentView,
    ts: u64,
)
    requires
        dir_told(c.c2s, h.c2s),
        dir_told(c.s2c, h.s2c),
        ({
            let fs = payload_frames(at_hand(seeds, c.saw_syn, arriving(c, s), s), s, ts);
            forall|i: int| 0 <= i < fs.len() ==> fields_encodable(#[trigger] fs[i])
        }),
    ensures
        ({
            let c2 = conn_replayed(seeds, c, s, ts);
            let h2 = conn_told(h, seeds, c, s, ts);
            dir_told(c2.c2s, h2.c2s) && dir_told(c2.s2c, h2.s2c)
        }),
{
    reveal(conn_replayed);
    let t = at_hand(seeds, c.saw_syn, arriving(c, s), s);
    if seg_src(s) == c.client {
        assert(dir_told(t, h.c2s));
        lemma_payload_told(t, c.s2c, h.c2s, h.s2c, s, ts);
    } else {
        assert(dir_told(t, h.s2c));
        lemma_payload_told(t, c.c2s, h.s2c, h.c2s, s, ts);
    }
}

/// The output tells what was taken, in every direction: what a packet's frames
/// became, and a marker for each header block in it that could not be decoded, is
/// exactly what the packet adds to the output of its direction, and nothing else
/// of any connection changes.
pub proof fn law_output_tells_what_was_taken(
    r: RebuilderView,
    h: Seq<TakenView>,
    frame: Seq<u8>,
    ts: u64,
)
    requires
        all_told(r, h),
        packet_writable(r, frame, ts),
        r.conns.len() < usize::MAX,
    ensures
        all_told(packet_replayed(r, frame, ts), packet_told(h, r, frame, ts)),
{
    if let Some(s) = segment_in(frame) {
        let seen = RebuilderView {
            report: Report { packets_in: add64(r.report.packets_in, 1), ..r.report },
            ..r
        };
        let c = conn_for(seen, s, ts);
        let k = key_between(seg_src(s), seg_dst(s));
        let after = segment_replayed(seen, s, ts);
        let h2 = packet_told(h, r, frame, ts);
        let none = TakenView { c2s: Seq::empty(), s2c: Seq::empty() };
        assert(conn_for(r, s, ts) == c);
        let i = if opens_conn(r, s) {
            h.len() as int
        } else {
            r.at[k] as int
        };
        let before = if opens_conn(r, s) {
            none
        } else {
            h[i]
        };
        if opens_conn(r, s) {
            assert(texts(c.c2s.out) =~= Seq::<Seq<u8>>::empty());
            assert(texts(c.s2c.out) =~= Seq::<Seq<u8>>::empty());
        }
        lemma_conn_told(before, r.seeds, c, s, ts);
        assert forall|j: int| 0 <= j < h2.len() implies dir_told(
            after.conns[j].c2s,
            (#[trigger] h2[j]).c2s,
        ) && dir_told(after.conns[j].s2c, h2[j].s2c) by {
            if j != i {
                assert(h2[j] == h[j]);
                assert(after.conns[j] == r.conns[j]);
            }
        }
    }
}

// ---------------------------------------------------------------------------
// A whole capture
// ---------------------------------------------------------------------------

/// The rebuild once the packets of a capture, each with its time, have been
/// replayed, and what every connection took off them.
pub open spec fn capture_replayed(
    seeds: Map<Route, SeedView>,
    packets: Seq<(Seq<u8>, u64)>,
) -> (RebuilderView, Seq<TakenView>)
    decreases packets.len(),
{
    if packets.len() == 0 {
        (blank(seeds), Seq::empty())
    } else {
        let (r, h) = capture_replayed(seeds, packets.drop_last());
        let (frame, ts) = packets.last();
        (packet_replayed(r, frame, ts), packet_told(h, r, frame, ts))
    }
}

/// Whether the fields of every header block in a capture are of a size that can be
/// written.
pub open spec fn capture_writable(
    seeds: Map<Route, SeedView>,
    packets: Seq<(Seq<u8>, u64)>,
) -> bool
    decreases packets.len(),
{
    packets.len() > 0 ==> {
        &&& capture_writable(seeds, packets.drop_last())
        &&& packet_writable(
            capture_replayed(seeds, packets.drop_last()).0,
            packets.last().0,
            packets.last().1,
        )
    }
}

proof fn lemma_capture_told(seeds: Map<Route, SeedView>, packets: Seq<(Seq<u8>, u64)>)
    requires
        capture_writable(seeds, packets),
        packets.len() <= usize::MAX,
    ensures
        all_told(capture_replayed(seeds, packets).0, capture_replayed(seeds, packets).1),
        capture_replayed(seeds, packets).0.conns.len() <= packets.len(),
    decreases packets.len(),
{
    if packets.len() > 0 {
        lemma_capture_told(seeds, packets.drop_last());
        let (r, h) = capture_replayed(seeds, packets.drop_last());
        law_output_tells_what_was_taken(r, h, packets.last().0, packets.last().1);
    }
}

proof fn lemma_texts_joined(out: Seq<(u64, Seq<u8>)>)
    ensures
        stream_bytes(out) == joined(texts(out)),
    decreases out.len(),
{
    if out.len() > 0 {
        let front = out.drop_last();
        lemma_texts_joined(front);
        let last = seq![out.last().1];
        assert(texts(out) =~= texts(front) + last);
        lemma_joined_concat(texts(front), last);
        assert(last.skip(1) =~= Seq::<Seq<u8>>::empty());
        assert(joined(last.skip(1)) =~= Seq::<u8>::empty());
        assert(joined(last) =~= out.last().1);
    }
}

/// What stands ahead of the frames of a rebuilt stream: the preface, if it is the
/// client's and there are any.
pub open spec fn lead(c2s: bool, fs: Seq<ProcessedFrameView>) -> Seq<u8> {
    if c2s && frames_emitted(fs).len() > 0 {
        PREFACE@
    } else {
        Seq::empty()
    }
}

proof fn lemma_client_bytes(c: ConnStateView, fs: Seq<ProcessedFrameView>)
    requires
        dir_told(c.c2s, fs),
    ensures
        stream_bytes(client_stream(c)) == lead(true, fs) + joined(frames_emitted(fs)),
{
    let s = client_stream(c);
    lemma_texts_joined(s);
    if c.c2s.out.len() > 0 {
        let first = seq![PREFACE@];
        assert(texts(s) =~= first + texts(c.c2s.out));
        lemma_joined_concat(first, texts(c.c2s.out));
        assert(first.skip(1) =~= Seq::<Seq<u8>>::empty());
        assert(joined(first.skip(1)) =~= Seq::<u8>::empty());
        assert(joined(first) =~= PREFACE@);
    } else {
        assert(texts(s) =~= frames_emitted(fs));
        assert(joined(texts(s)) =~= lead(true, fs) + joined(frames_emitted(fs)));
    }
}

/// A reader that has nothing takes nothing, and nothing is what there was.
proof fn lemma_nothing_read(d: DirectionView, fs: Seq<ProcessedFrameView>)
    requires
        ready(DirectionView { expect_preface: false, ..d }),
        d.keep_payloads,
        d.reasm.avail.len() == 0,
        all_passable(fs),
        frames_emitted(fs).len() == 0,
    ensures
        parsed(d) == (d, Seq::<ProcessedFrameView>::empty()),
        contents(fs) == Seq::<Content>::empty(),
{
    let e = DirectionView { expect_preface: false, ..d };
    assert(joined(frames_emitted(fs)) =~= Seq::<u8>::empty());
    assert(e.reasm.avail =~= joined(frames_emitted(fs)));
    law_output_decodes_standalone(e, fs);
    lemma_parsed_unfolds(d);
    lemma_parsed_unfolds(e);
}

/// The headline claim, over a whole run: take any capture, replay it with any
/// snapshot and write it out. The bytes that the output's packets carry in one
/// direction of one connection, in the order in which they leave, are what the
/// frames became that this direction took off the capture, for the client led by
/// the preface. A reader that has those bytes from the first one on, whatever its
/// table, takes exactly the same header lists and payloads off them, with every
/// reference resolved, in the same order; each header block that could not be
/// decoded is a marker among them; and the reader never needs its table.
pub proof fn law_rebuilt_capture_decodes(
    seeds: Map<Route, SeedView>,
    packets: Seq<(Seq<u8>, u64)>,
    mss: usize,
    conn: usize,
    c2s: bool,
    d: DirectionView,
)
    requires
        capture_writable(seeds, packets),
        packets.len() <= usize::MAX,
        ({
            let r = capture_replayed(seeds, packets).0;
            &&& countable(r, mss)
            &&& conn < r.conns.len()
            &&& d.reasm.avail == sent_bytes(
                rebuilt_plan(r, mss),
                rebuilt_plan(r, mss).len() as int,
                conn,
                c2s,
            )
        }),
        ready(DirectionView { expect_preface: false, ..d }),
        d.expect_preface == c2s,
        d.keep_payloads,
    ensures
        ({
            let taken = capture_replayed(seeds, packets).1[conn as int];
            let fs = if c2s {
                taken.c2s
            } else {
                taken.s2c
            };
            &&& d.reasm.avail == lead(c2s, fs) + joined(frames_emitted(fs))
            &&& contents(parsed(d).1) == contents(fs)
            &&& parsed(d).0.dec == d.dec
            &&& parsed(d).0.poisoned == d.poisoned
            &&& ready(DirectionView { expect_preface: false, ..parsed(d).0 })
            &&& parsed(d).0.reasm.avail.len() == 0
        }),
{
    let (r, h) = capture_replayed(seeds, packets);
    let c = r.conns[conn as int];
    lemma_capture_told(seeds, packets);
    assert(dir_told(c.c2s, h[conn as int].c2s) && dir_told(c.s2c, h[conn as int].s2c));
    law_streams_arrive_whole(r, mss, conn, c2s);
    let none = Seq::<u8>::empty();
    if c2s {
        let fs = h[conn as int].c2s;
        lemma_client_bytes(c, fs);
        if frames_emitted(fs).len() > 0 {
            law_rebuilt_client_stream_decodes(d, fs);
        } else {
            assert(joined(frames_emitted(fs)) =~= none);
            lemma_nothing_read(d, fs);
        }
    } else {
        let fs = h[conn as int].s2c;
        lemma_texts_joined(c.s2c.out);
        assert(none + joined(frames_emitted(fs)) =~= joined(frames_emitted(fs)));
        law_output_decodes_standalone(d, fs);
    }
}

} // verus!
