//! Laws of the rebuild: the output decodes on its own to what was decoded, no
//! snapshot is applied where it does not belong, and nothing is lost on the way.
use vstd::arithmetic::div_mod::{lemma_add_mod_noop, lemma_mod_twice};
use vstd::prelude::*;
use vstd::utf8::*;

use crate::addr::addr_text;
use crate::bytes::{add64, counted};
use crate::conn::laws::lemma_parsed_unfolds;
use crate::conn::{
    carries_headers, fed, flag, frame_handled, frame_step, gap_noted, keeps_payload,
    lemma_step_decreases, parse_step, parsed, preface_step, promised_in, seeded, start_state,
    BlockKind, DecodedBlockView, DirectionView, ProcessedFrameView, StepView,
};
use crate::frame::{
    fragment_of, frame_bytes, header_at, header_bytes, law_header_round_trip, FrameHeader,
    FrameType, DEFAULT_MAX_FRAME_SIZE, PREFACE,
};
use crate::hpack::laws::{encodable_field, resolved_fields};
use crate::hpack::{literal_block, literal_bytes, FieldView};
use crate::pkt::{segment_in, tcp_flags, SegmentView};
use crate::reassembly::{consumed, pushed};
use crate::rebuild::encode::{
    block_as_read, block_frames, encodable_block, joined, lemma_encoded_block_taken, lemma_idle,
    one_block, ready, takes,
};
use crate::rebuild::replay::{
    arriving, at_hand, conn_for, conn_replayed, failure_marker, frame_emitted, frames_counted,
    frames_emitted, markers_emitted, opens_conn, packet_replayed, payload_counted, payload_failures,
    payload_frames, payload_taken, seed_warning, segment_counted, segment_replayed, touch_counted,
    touched, ConnStateView, DirStateView, RebuilderView,
};
use crate::rebuild::seeds::{Route, SeedView};
use crate::rebuild::{empty_report, Report};
use crate::tracker::{seg_dst, seg_has, seg_src};

verus! {

// ---------------------------------------------------------------------------
// The output decodes on its own
// ---------------------------------------------------------------------------

/// What a frame says: a header list, or a payload of some other type.
#[verifier::ext_equal]
pub enum Content {
    Headers {
        stream_id: u32,
        fields: Seq<FieldView>,
        end_stream: bool,
        promised: Option<u32>,
    },
    Plain { typ: u8, flags: u8, stream_id: u32, payload: Seq<u8> },
}

/// What a block says, once its fields no longer depend on any table.
pub open spec fn block_content(b: DecodedBlockView) -> Content {
    let push = b.kind == BlockKind::PushPromise;
    Content::Headers {
        stream_id: b.stream_id,
        fields: resolved_fields(b.fields),
        end_stream: b.end_stream && !push,
        promised: if push {
            b.promised_stream_id
        } else {
            None
        },
    }
}

/// What the frames of a list say, in order. Frames whose payload was not
/// buffered, and parts of header blocks that are not complete, say nothing.
pub open spec fn contents(fs: Seq<ProcessedFrameView>) -> Seq<Content>
    decreases fs.len(),
{
    if fs.len() == 0 {
        Seq::empty()
    } else {
        contents(fs.drop_last()) + content(fs.last())
    }
}

/// What one frame says.
pub open spec fn content(f: ProcessedFrameView) -> Seq<Content> {
    if f.truncated {
        Seq::empty()
    } else if f.is_header_frame {
        match f.decoded {
            None => Seq::empty(),
            Some(b) => seq![block_content(b)],
        }
    } else {
        seq![
            Content::Plain {
                typ: f.hdr.typ,
                flags: f.hdr.flags,
                stream_id: f.hdr.stream_id,
                payload: f.payload,
            },
        ]
    }
}

/// Whether a frame can stand in the output: what it says can be written.
pub open spec fn passable(f: ProcessedFrameView) -> bool {
    &&& f.is_header_frame ==> (f.decoded is Some ==> encodable_block(f.decoded->Some_0))
    &&& !f.is_header_frame && !f.truncated ==> {
        &&& !carries_headers(f.hdr.typ)
        &&& f.payload.len() <= 1_048_576
        &&& f.hdr.stream_id < 0x8000_0000
    }
}

pub proof fn lemma_joined_concat(a: Seq<Seq<u8>>, b: Seq<Seq<u8>>)
    ensures
        joined(a + b) == joined(a) + joined(b),
    decreases a.len(),
{
    if a.len() == 0 {
        assert(a + b =~= b);
        assert(joined(a) + joined(b) =~= joined(b));
    } else {
        assert((a + b).skip(1) =~= a.skip(1) + b);
        lemma_joined_concat(a.skip(1), b);
        assert(a[0] + (joined(a.skip(1)) + joined(b)) =~= a[0] + joined(a.skip(1)) + joined(b));
    }
}

proof fn lemma_emitted_front(fs: Seq<ProcessedFrameView>)
    requires
        fs.len() > 0,
    ensures
        frames_emitted(fs) == frame_emitted(fs[0]) + frames_emitted(fs.skip(1)),
    decreases fs.len(),
{
    if fs.len() == 1 {
        assert(fs.drop_last() =~= Seq::<ProcessedFrameView>::empty());
        assert(fs.skip(1) =~= Seq::<ProcessedFrameView>::empty());
        assert(frames_emitted(fs) =~= frame_emitted(fs[0]) + frames_emitted(fs.skip(1)));
    } else {
        lemma_emitted_front(fs.drop_last());
        assert(fs.drop_last().skip(1) =~= fs.skip(1).drop_last());
        assert(fs.drop_last()[0] == fs[0]);
        assert(fs.skip(1).last() == fs.last());
        let mid = frames_emitted(fs.skip(1).drop_last());
        assert(frame_emitted(fs[0]) + mid + frame_emitted(fs.last()) =~= frame_emitted(fs[0]) + (mid
            + frame_emitted(fs.last())));
    }
}

proof fn lemma_contents_concat(a: Seq<ProcessedFrameView>, b: Seq<ProcessedFrameView>)
    ensures
        contents(a + b) == contents(a) + contents(b),
    decreases b.len(),
{
    if b.len() == 0 {
        assert(a + b =~= a);
        assert(contents(a) + contents(b) =~= contents(a));
    } else {
        assert((a + b).drop_last() =~= a + b.drop_last());
        assert((a + b).last() == b.last());
        lemma_contents_concat(a, b.drop_last());
        assert(contents(a) + contents(b.drop_last()) + content(b.last()) =~= contents(a) + (
        contents(b.drop_last()) + content(b.last())));
    }
}

proof fn lemma_contents_one(f: ProcessedFrameView)
    ensures
        contents(seq![f]) == content(f),
{
    assert(seq![f].drop_last() =~= Seq::<ProcessedFrameView>::empty());
    assert(contents(seq![f].drop_last()) =~= Seq::<Content>::empty());
    assert(contents(seq![f]) =~= content(f));
}

/// The frames of one block say what the block says.
proof fn lemma_contents_of_block(fs: Seq<ProcessedFrameView>)
    requires
        one_block(fs),
    ensures
        contents(fs) == content(fs.last()),
    decreases fs.len(),
{
    lemma_contents_before_last(fs, fs.len() - 1);
    assert(fs.take(fs.len() - 1) =~= fs.drop_last());
    assert(Seq::<Content>::empty() + content(fs.last()) =~= content(fs.last()));
}

proof fn lemma_contents_before_last(fs: Seq<ProcessedFrameView>, n: int)
    requires
        one_block(fs),
        0 <= n < fs.len(),
    ensures
        contents(fs.take(n)) == Seq::<Content>::empty(),
    decreases n,
{
    if n > 0 {
        lemma_contents_before_last(fs, n - 1);
        assert(fs.take(n).drop_last() =~= fs.take(n - 1));
        assert(fs.take(n).last() == fs[n - 1]);
        assert(contents(fs.take(n)) =~= Seq::<Content>::empty());
    }
}

/// The step that takes a frame off that is not about headers.
proof fn lemma_plain_step(
    d: DirectionView,
    hdr: FrameHeader,
    payload: Seq<u8>,
    rest: Seq<u8>,
) -> (r: (ProcessedFrameView, DirectionView))
    requires
        ready(d),
        d.keep_payloads,
        !carries_headers(hdr.typ),
        hdr.len == payload.len() <= 1_048_576,
        hdr.stream_id < 0x8000_0000,
        d.reasm.avail == header_bytes(hdr) + payload + rest,
    ensures
        takes(d, seq![r.0], r.1),
        r.0.hdr == hdr,
        r.0.payload == payload,
        r.0.decoded is None,
        !r.0.is_header_frame,
        !r.0.truncated,
        r.1.reasm.avail == rest,
        r.1 == (DirectionView { reasm: r.1.reasm, frames: r.1.frames, ..d }),
{
    let a = d.reasm.avail;
    law_header_round_trip(hdr, payload + rest);
    assert(a =~= header_bytes(hdr) + (payload + rest));
    assert(a.subrange(9, 9 + hdr.len) =~= payload);
    assert(a.skip(9 + hdr.len) =~= rest);
    let taken = DirectionView {
        reasm: consumed(d.reasm, 9 + hdr.len),
        frames: add64(d.frames, 1),
        ..d
    };
    assert(frame_handled(taken, hdr, payload) == (taken, None::<DecodedBlockView>)) by {
        reveal(frame_handled);
    }
    assert(keeps_payload(d, hdr));
    assert(parse_step(d) == frame_step(d));
    lemma_parsed_unfolds(d);
    (parse_step(d).1->Frame_0, parse_step(d).0)
}

/// A frame that is not about headers is taken as it is.
proof fn lemma_plain_frame_taken(
    d: DirectionView,
    typ: u8,
    fl: u8,
    sid: u32,
    payload: Seq<u8>,
    rest: Seq<u8>,
) -> (r: (Seq<ProcessedFrameView>, DirectionView))
    requires
        ready(d),
        d.keep_payloads,
        !carries_headers(typ),
        payload.len() <= 1_048_576,
        sid < 0x8000_0000,
        d.reasm.avail == frame_bytes(typ, fl, sid, payload) + rest,
    ensures
        takes(d, r.0, r.1),
        contents(r.0) == seq![Content::Plain { typ, flags: fl, stream_id: sid, payload }],
        ready(r.1),
        r.1.dec == d.dec,
        r.1.poisoned == d.poisoned,
        r.1.keep_payloads,
        r.1.reasm.avail == rest,
{
    let hdr = FrameHeader { len: payload.len() as u32, typ, flags: fl, stream_id: sid };
    assert(d.reasm.avail =~= header_bytes(hdr) + payload + rest);
    let (f, e) = lemma_plain_step(d, hdr, payload, rest);
    assert(contents(seq![f]) == seq![Content::Plain { typ, flags: fl, stream_id: sid, payload }])
        by {
        lemma_contents_one(f);
    }
    (seq![f], e)
}

/// What one frame of the input became in the output is taken whole.
proof fn lemma_emitted_taken(d: DirectionView, f: ProcessedFrameView, rest: Seq<u8>) -> (r: (
    Seq<ProcessedFrameView>,
    DirectionView,
))
    requires
        ready(d),
        d.keep_payloads,
        passable(f),
        d.reasm.avail == joined(frame_emitted(f)) + rest,
    ensures
        takes(d, r.0, r.1),
        contents(r.0) == content(f),
        ready(r.1),
        r.1.dec == d.dec,
        r.1.poisoned == d.poisoned,
        r.1.keep_payloads,
        r.1.reasm.avail == rest,
{
    let none = Seq::<ProcessedFrameView>::empty();
    if f.truncated || (f.is_header_frame && f.decoded is None) {
        assert(joined(frame_emitted(f)) =~= Seq::<u8>::empty());
        assert(d.reasm.avail =~= rest);
        assert(none + parsed(d).1 =~= parsed(d).1);
        (none, d)
    } else if f.is_header_frame {
        let b = f.decoded->Some_0;
        let (fs, e) = lemma_encoded_block_taken(d, b, DEFAULT_MAX_FRAME_SIZE, rest);
        lemma_contents_of_block(fs);
        lemma_resolved_twice(b.fields);
        assert(block_content(block_as_read(d, b)) =~= block_content(b));
        (fs, e)
    } else {
        let fb = frame_bytes(f.hdr.typ, f.hdr.flags, f.hdr.stream_id, f.payload);
        let parts = frame_emitted(f);
        assert(parts.skip(1) =~= Seq::<Seq<u8>>::empty());
        assert(joined(parts.skip(1)) =~= Seq::<u8>::empty());
        assert(joined(parts) =~= fb);
        lemma_plain_frame_taken(
            d,
            f.hdr.typ,
            f.hdr.flags,
            f.hdr.stream_id,
            f.payload,
            rest,
        )
    }
}

proof fn lemma_resolved_twice(fields: Seq<FieldView>)
    ensures
        resolved_fields(resolved_fields(fields)) == resolved_fields(fields),
{
    assert(resolved_fields(resolved_fields(fields)) =~= resolved_fields(fields));
}

/// What a list of frames became in the output is taken whole.
proof fn lemma_all_emitted_taken(
    d: DirectionView,
    fs: Seq<ProcessedFrameView>,
    rest: Seq<u8>,
) -> (r: (Seq<ProcessedFrameView>, DirectionView))
    requires
        ready(d),
        d.keep_payloads,
        forall|i: int| 0 <= i < fs.len() ==> passable(#[trigger] fs[i]),
        d.reasm.avail == joined(frames_emitted(fs)) + rest,
    ensures
        takes(d, r.0, r.1),
        contents(r.0) == contents(fs),
        ready(r.1),
        r.1.dec == d.dec,
        r.1.poisoned == d.poisoned,
        r.1.keep_payloads,
        r.1.reasm.avail == rest,
    decreases fs.len(),
{
    let none = Seq::<ProcessedFrameView>::empty();
    if fs.len() == 0 {
        assert(joined(frames_emitted(fs)) =~= Seq::<u8>::empty());
        assert(d.reasm.avail =~= rest);
        assert(none + parsed(d).1 =~= parsed(d).1);
        (none, d)
    } else {
        let more = fs.skip(1);
        let tail = joined(frames_emitted(more)) + rest;
        lemma_emitted_front(fs);
        lemma_joined_concat(frame_emitted(fs[0]), frames_emitted(more));
        assert(d.reasm.avail =~= joined(frame_emitted(fs[0])) + tail);
        let (gs, e) = lemma_emitted_taken(d, fs[0], tail);
        assert forall|i: int| 0 <= i < more.len() implies passable(#[trigger] more[i]) by {
            assert(more[i] == fs[i + 1]);
        }
        let (hs, end) = lemma_all_emitted_taken(e, more, rest);
        assert(gs + (hs + parsed(end).1) =~= (gs + hs) + parsed(end).1);
        lemma_contents_concat(gs, hs);
        lemma_contents_one(fs[0]);
        lemma_contents_concat(seq![fs[0]], more);
        assert(seq![fs[0]] + more =~= fs);
        (gs + hs, end)
    }
}

/// The output decodes on its own. Let `fs` be the frames that a direction took
/// off the capture, and let a reader stand at a frame boundary, with any table
/// whatever, for instance none. From what `fs` became in the output it takes the
/// same header lists, on the same streams and in the same order among the same
/// other frames, with every reference resolved; it never needs its table, and
/// ends at a frame boundary with the table unchanged. So the output can be read
/// from any such point on.
pub proof fn law_output_decodes_standalone(d: DirectionView, fs: Seq<ProcessedFrameView>)
    requires
        ready(d),
        d.keep_payloads,
        forall|i: int| 0 <= i < fs.len() ==> passable(#[trigger] fs[i]),
        d.reasm.avail == joined(frames_emitted(fs)),
    ensures
        contents(parsed(d).1) == contents(fs),
        parsed(d).0.dec == d.dec,
        parsed(d).0.poisoned == d.poisoned,
        ready(parsed(d).0),
        parsed(d).0.reasm.avail.len() == 0,
{
    let none = Seq::<u8>::empty();
    assert(d.reasm.avail =~= joined(frames_emitted(fs)) + none);
    let (gs, e) = lemma_all_emitted_taken(d, fs, none);
    lemma_idle(e);
    assert(gs + Seq::<ProcessedFrameView>::empty() =~= gs);
}

/// A reader of the rebuilt client stream, which has it from its first byte and
/// expects the preface, takes the preface off and decodes the rest as above.
pub proof fn law_rebuilt_client_stream_decodes(d: DirectionView, fs: Seq<ProcessedFrameView>)
    requires
        ready(DirectionView { expect_preface: false, ..d }),
        d.expect_preface,
        d.keep_payloads,
        forall|i: int| 0 <= i < fs.len() ==> passable(#[trigger] fs[i]),
        d.reasm.avail == PREFACE@ + joined(frames_emitted(fs)),
    ensures
        contents(parsed(d).1) == contents(fs),
        parsed(d).0.dec == d.dec,
        parsed(d).0.poisoned == d.poisoned,
        ready(parsed(d).0),
        parsed(d).0.reasm.avail.len() == 0,
{
    let a = d.reasm.avail;
    assert(a.take(24) =~= PREFACE@);
    assert(a.skip(24) =~= joined(frames_emitted(fs)));
    lemma_parsed_unfolds(d);
    assert(parse_step(d) == preface_step(d));
    law_output_decodes_standalone(parse_step(d).0, fs);
}

// ---------------------------------------------------------------------------
// What a direction takes can be written
// ---------------------------------------------------------------------------

/// What every direction satisfies: an open header block is on a valid stream,
/// and if it is that of a PUSH_PROMISE, it is known what is promised.
pub open spec fn promise_known(d: DirectionView) -> bool {
    d.block_hdr is Some ==> {
        let h = d.block_hdr->Some_0;
        &&& h.stream_id < 0x8000_0000
        &&& h.typ == FrameType::PUSH_PROMISE ==> d.block_promised is Some
            && d.block_promised->Some_0 < 0x8000_0000
    }
}

/// Whether the fields of a frame's block, if it completes one, can be written.
pub open spec fn fields_encodable(f: ProcessedFrameView) -> bool {
    f.decoded is Some ==> forall|i: int|
        0 <= i < f.decoded->Some_0.fields.len() ==> encodable_field(
            #[trigger] f.decoded->Some_0.fields[i],
        )
}

proof fn lemma_frame_promise(d: DirectionView, hdr: FrameHeader, payload: Seq<u8>)
    requires
        promise_known(d),
        hdr.stream_id < 0x8000_0000,
    ensures
        promise_known(frame_handled(d, hdr, payload).0),
        frame_handled(d, hdr, payload).1 matches Some(b) ==> {
            &&& b.stream_id < 0x8000_0000
            &&& b.kind == BlockKind::PushPromise ==> b.promised_stream_id is Some
                && b.promised_stream_id->Some_0 < 0x8000_0000
        },
{
    reveal(frame_handled);
    if hdr.typ == FrameType::PUSH_PROMISE {
        if fragment_of(hdr, payload) is Some {
            assert(promised_in(hdr, payload) is Some);
            assert(promised_in(hdr, payload)->Some_0 < 0x8000_0000);
        }
    }
}

proof fn lemma_step_passable(d: DirectionView)
    requires
        promise_known(d),
    ensures
        promise_known(parse_step(d).0),
        parse_step(d).1 matches StepView::Frame(f) ==> (fields_encodable(f) ==> passable(f)),
{
    if d.reasm.avail.len() >= 9 {
        let hdr = header_at(d.reasm.avail);
        let taken = DirectionView {
            reasm: consumed(d.reasm, 9 + hdr.len),
            frames: add64(d.frames, 1),
            ..d
        };
        lemma_frame_promise(taken, hdr, d.reasm.avail.subrange(9, 9 + hdr.len));
    }
}

proof fn lemma_parsed_passable(d: DirectionView)
    requires
        promise_known(d),
    ensures
        promise_known(parsed(d).0),
        forall|i: int|
            0 <= i < parsed(d).1.len() && fields_encodable(#[trigger] parsed(d).1[i]) ==> passable(
                parsed(d).1[i],
            ),
    decreases
            d.reasm.avail.len(),
            flag(d.pending_start_seq is Some),
            flag(d.desynced),
            flag(d.expect_preface),
{
    lemma_step_passable(d);
    lemma_step_decreases(d);
    lemma_parsed_unfolds(d);
    let d1 = parse_step(d).0;
    if parse_step(d).1 !is Stop {
        lemma_parsed_passable(d1);
    }
    if let StepView::Frame(f) = parse_step(d).1 {
        let fs = parsed(d).1;
        assert(fs == seq![f] + parsed(d1).1);
        assert forall|i: int| 0 <= i < fs.len() && fields_encodable(#[trigger] fs[i]) implies passable(
            fs[i],
        ) by {
            if i > 0 {
                assert(fs[i] == parsed(d1).1[i - 1]);
            }
        }
    }
}

/// Every frame that a direction takes off a capture can stand in the output, as
/// far as the fields of its block are of a size that can be written.
pub proof fn law_taken_frames_can_be_written(
    d: DirectionView,
    seq: u32,
    data: Seq<u8>,
    now_us: u64,
)
    requires
        promise_known(d),
    ensures
        ({
            let (after, fs) = fed(d, seq, data, now_us);
            &&& promise_known(after)
            &&& forall|i: int|
                0 <= i < fs.len() && fields_encodable(#[trigger] fs[i]) ==> passable(fs[i])
        }),
{
    reveal(fed);
    let (reasm, gap) = pushed(d.reasm, seq, data, now_us);
    let received = DirectionView { reasm, ..d };
    lemma_parsed_passable(received);
    lemma_parsed_passable(gap_noted(received));
}

// ---------------------------------------------------------------------------
// Snapshots are applied where they belong
// ---------------------------------------------------------------------------

/// A connection whose SYN was seen takes nothing from the snapshot, whatever the
/// snapshot holds for its tuple: it is decoded from first principles.
pub proof fn law_started_connection_ignores_the_snapshot(
    m: Map<Route, SeedView>,
    n: Map<Route, SeedView>,
    c: ConnStateView,
    s: SegmentView,
    ts: u64,
    rep: Report,
)
    requires
        c.saw_syn,
    ensures
        conn_replayed(m, c, s, ts) == conn_replayed(n, c, s, ts),
        segment_counted(rep, m, c.saw_syn, arriving(c, s), s, ts) == segment_counted(
            rep,
            n,
            c.saw_syn,
            arriving(c, s),
            s,
            ts,
        ),
        seed_warning(m, c.saw_syn, arriving(c, s), s) is None,
{
    reveal(conn_replayed);
    reveal(segment_counted);
}

/// A bare SYN starts a connection of its own on its tuple, whatever was there:
/// with both directions from their first byte, tables empty and known in full,
/// and nothing in the output yet. The connections that were there stay, with
/// what they have in the output.
pub proof fn law_syn_starts_afresh(r: RebuilderView, s: SegmentView, ts: u64)
    requires
        seg_has(s, tcp_flags::SYN),
        !seg_has(s, tcp_flags::ACK),
    ensures
        ({
            let c = conn_for(r, s, ts);
            &&& c.saw_syn
            &&& c.c2s.dir == start_state(true, true)
            &&& c.s2c.dir == start_state(true, false)
            &&& c.c2s.out.len() == 0 && c.s2c.out.len() == 0
            &&& segment_replayed(r, s, ts).conns.drop_last() == r.conns
        }),
{
}

/// A snapshot that is not usable is not applied: apart from the warning,
/// everything is as if the snapshot said nothing of the direction.
pub proof fn law_unusable_snapshot_is_not_applied(
    m: Map<Route, SeedView>,
    c: ConnStateView,
    s: SegmentView,
    ts: u64,
    rep: Report,
)
    requires
        ({
            let route = (addr_text(seg_src(s)), addr_text(seg_dst(s)));
            m.contains_key(route) && !m[route].usable
        }),
    ensures
        ({
            let route = (addr_text(seg_src(s)), addr_text(seg_dst(s)));
            let n = m.remove(route);
            &&& conn_replayed(m, c, s, ts) == conn_replayed(n, c, s, ts)
            &&& segment_counted(rep, m, c.saw_syn, arriving(c, s), s, ts) == segment_counted(
                rep,
                n,
                c.saw_syn,
                arriving(c, s),
                s,
                ts,
            )
        }),
{
    reveal(conn_replayed);
    reveal(segment_counted);
}

/// A usable snapshot is applied at the first packet of its direction, before any
/// byte is fed, and at that packet only.
pub proof fn law_usable_snapshot_is_applied_once(
    m: Map<Route, SeedView>,
    c: ConnStateView,
    s: SegmentView,
)
    requires
        !c.saw_syn,
        ({
            let route = (addr_text(seg_src(s)), addr_text(seg_dst(s)));
            m.contains_key(route) && m[route].usable
        }),
    ensures
        ({
            let t = arriving(c, s);
            let seed = m[(addr_text(seg_src(s)), addr_text(seg_dst(s)))];
            let after = touched(m, c.saw_syn, t, s);
            &&& after.seeded
            &&& !t.seeded ==> after.dir == seeded(
                t.dir,
                seed.entries,
                seed.max_size,
                seed.next_frame_seq,
            )
            &&& t.seeded ==> after.dir == t.dir
        }),
{
}

// ---------------------------------------------------------------------------
// Counting
// ---------------------------------------------------------------------------

/// Whether every header block is counted as fully decoded or as partial.
pub open spec fn blocks_add_up(r: Report) -> bool {
    r.header_blocks == counted(r.blocks_exact, r.blocks_partial as int)
}

proof fn lemma_counted_one_more(a: usize, b: usize)
    ensures
        counted(a, counted(b, 1) as int) == counted(counted(a, b as int), 1),
        counted(counted(a, 1), b as int) == counted(counted(a, b as int), 1),
{
    let w = usize::MAX + 1;
    lemma_add_mod_noop(a as int, (b + 1) % w, w);
    lemma_add_mod_noop(a as int, b + 1, w);
    lemma_mod_twice(b + 1, w);
    lemma_add_mod_noop((a + b) % w, 1, w);
    lemma_add_mod_noop(a + b, 1, w);
    lemma_mod_twice(a + b, w);
    lemma_add_mod_noop((a + 1) % w, b as int, w);
    lemma_add_mod_noop(a + 1, b as int, w);
    lemma_mod_twice(a + 1, w);
}

proof fn lemma_frames_add_up(r: Report, fs: Seq<ProcessedFrameView>)
    requires
        blocks_add_up(r),
    ensures
        blocks_add_up(frames_counted(r, fs)),
    decreases fs.len(),
{
    if fs.len() > 0 {
        lemma_frames_add_up(r, fs.drop_last());
        let before = frames_counted(r, fs.drop_last());
        lemma_counted_one_more(before.blocks_exact, before.blocks_partial);
    }
}

/// Every header block is counted exactly once, as fully decoded or as partial:
/// so it is before anything has happened, and no packet changes it.
pub proof fn law_blocks_are_counted_once(r: RebuilderView, frame: Seq<u8>, ts: u64)
    requires
        blocks_add_up(r.report),
    ensures
        blocks_add_up(packet_replayed(r, frame, ts).report),
        blocks_add_up(empty_report()),
{
    reveal(segment_counted);
    vstd::arithmetic::div_mod::lemma_small_mod(0, (usize::MAX + 1) as nat);
    if let Some(s) = segment_in(frame) {
        let seen = RebuilderView {
            report: Report { packets_in: add64(r.report.packets_in, 1), ..r.report },
            ..r
        };
        let c = conn_for(seen, s, ts);
        let t = arriving(c, s);
        let opened = if opens_conn(seen, s) {
            Report { conns: counted(seen.report.conns, 1), ..seen.report }
        } else {
            seen.report
        };
        let touched_report = touch_counted(opened, r.seeds, c.saw_syn, t, s);
        lemma_frames_add_up(
            touched_report,
            payload_frames(at_hand(r.seeds, c.saw_syn, t, s), s, ts),
        );
    }
}

proof fn lemma_marker_is_small()
    ensures
        block_frames(failure_marker(), DEFAULT_MAX_FRAME_SIZE).len() == 1,
{
    let b = failure_marker();
    let f = b.fields[0];
    reveal_strlit("@hpack-decode-failed");
    reveal_strlit("header block could not be decoded");
    is_ascii_chars_encode_utf8("@hpack-decode-failed"@);
    is_ascii_chars_encode_utf8("header block could not be decoded"@);
    assert(f.name.len() == 20);
    assert(f.value.len() == 33);
    assert(b.fields.drop_last() =~= Seq::<FieldView>::empty());
    assert(literal_block(b.fields.drop_last()) =~= Seq::<u8>::empty());
    assert(literal_bytes(f).len() == 1 + 21 + 34);
    assert(literal_block(b.fields).len() == 56);
}

proof fn lemma_markers_len(n: nat)
    ensures
        markers_emitted(n).len() == n,
    decreases n,
{
    lemma_marker_is_small();
    if n > 0 {
        lemma_markers_len((n - 1) as nat);
    }
}

/// A header block that could not be decoded stays visible: behind what stands
/// for the frames of a packet come exactly as many markers as header blocks
/// failed to decode in it, each a frame of its own in its own direction, and
/// just as many are counted.
pub proof fn law_failures_stay_visible(
    t: DirStateView,
    other: DirStateView,
    s: SegmentView,
    ts: u64,
    rep: Report,
)
    ensures
        ({
            let fs = payload_frames(t, s, ts);
            let n = payload_failures(t, s, ts);
            let out = payload_taken(t, other, s, ts).0.out;
            &&& out.len() == t.out.len() + frames_emitted(fs).len() + n
            &&& payload_counted(rep, t, s, ts).decode_failures == counted(
                frames_counted(rep, fs).decode_failures,
                n as int,
            )
            &&& forall|i: int|
                out.len() - n <= i < out.len() ==> #[trigger] out[i] == (
                    ts,
                    block_frames(failure_marker(), DEFAULT_MAX_FRAME_SIZE)[0],
                )
        }),
{
    let fs = payload_frames(t, s, ts);
    let n = payload_failures(t, s, ts);
    let out = payload_taken(t, other, s, ts).0.out;
    lemma_markers_len(n as nat);
    if s.payload.len() == 0 {
        assert(frames_emitted(fs) =~= Seq::<Seq<u8>>::empty());
    }
    assert forall|i: int| out.len() - n <= i < out.len() implies #[trigger] out[i] == (
        ts,
        block_frames(failure_marker(), DEFAULT_MAX_FRAME_SIZE)[0],
    ) by {
        lemma_markers_alike(n as nat, i - (out.len() - n));
    }
}

proof fn lemma_markers_alike(n: nat, i: int)
    requires
        0 <= i < n,
    ensures
        markers_emitted(n).len() == n,
        markers_emitted(n)[i] == block_frames(failure_marker(), DEFAULT_MAX_FRAME_SIZE)[0],
    decreases n,
{
    lemma_markers_len(n);
    lemma_markers_len((n - 1) as nat);
    lemma_marker_is_small();
    if i < n - 1 {
        lemma_markers_alike((n - 1) as nat, i);
    }
}

} // verus!
