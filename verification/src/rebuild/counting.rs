//! The output holds as many header blocks as the report says.
use vstd::arithmetic::div_mod::{lemma_add_mod_noop, lemma_mod_twice, lemma_small_mod};
use vstd::prelude::*;

use crate::bytes::{add64, counted};
use crate::conn::laws::lemma_parsed_unfolds;
use crate::conn::{
    carries_headers, fed, flag, gap_noted, lemma_step_decreases, parse_step, parsed,
    DecodedBlockView, DirectionView, ProcessedFrameView, StepView,
};
use crate::frame::{flags, frame_bytes, FrameType, DEFAULT_MAX_FRAME_SIZE};
use crate::pkt::{segment_in, SegmentView};
use crate::reassembly::pushed;
use crate::rebuild::encode::{block_body, block_flags, block_frames, block_type, cut_into_frames};
use crate::rebuild::replay::{
    arriving, at_hand, conn_for, conn_replayed, failure_marker, frame_emitted, frames_counted,
    frames_emitted, markers_emitted, opens_conn, packet_replayed, payload_counted, payload_failures,
    payload_frames, payload_taken, segment_counted, segment_replayed, stamped, touch_counted,
    ConnStateView, DirStateView, RebuilderView,
};
use crate::rebuild::synth::all_tallied;
use crate::rebuild::{empty_report, Report};
use crate::tracker::{key_between, seg_dst, seg_src, ConnKey};

verus! {

/// Whether a frame opens a header block. Its type is in its fourth byte.
pub open spec fn opens_block(frame: Seq<u8>) -> bool {
    frame[3] == FrameType::HEADERS || frame[3] == FrameType::PUSH_PROMISE
}

/// How many header blocks a list of stamped frames holds.
pub open spec fn blocks_in(out: Seq<(u64, Seq<u8>)>) -> nat
    decreases out.len(),
{
    if out.len() == 0 {
        0
    } else {
        blocks_in(out.drop_last()) + if opens_block(out.last().1) {
            1nat
        } else {
            0nat
        }
    }
}

/// How many header blocks stand in the output, over all connections.
pub open spec fn blocks_out(conns: Seq<ConnStateView>) -> nat
    decreases conns.len(),
{
    if conns.len() == 0 {
        0
    } else {
        blocks_out(conns.drop_last()) + conn_blocks(conns.last())
    }
}

/// How many of one connection.
pub open spec fn conn_blocks(c: ConnStateView) -> nat {
    blocks_in(c.c2s.out) + blocks_in(c.s2c.out)
}

/// Whether a frame completes a header block that is written anew.
spec fn completes(f: ProcessedFrameView) -> bool {
    !f.truncated && f.is_header_frame && f.decoded is Some
}

/// How many frames of a list do.
spec fn completed(fs: Seq<ProcessedFrameView>) -> nat
    decreases fs.len(),
{
    if fs.len() == 0 {
        0
    } else {
        completed(fs.drop_last()) + if completes(fs.last()) {
            1nat
        } else {
            0nat
        }
    }
}

/// Whether frames are marked for what they are.
spec fn marked(fs: Seq<ProcessedFrameView>) -> bool {
    forall|i: int|
        0 <= i < fs.len() ==> (#[trigger] fs[i]).is_header_frame == carries_headers(fs[i].hdr.typ)
}

proof fn lemma_parsed_marked(d: DirectionView)
    ensures
        marked(parsed(d).1),
    decreases
            d.reasm.avail.len(),
            flag(d.pending_start_seq is Some),
            flag(d.desynced),
            flag(d.expect_preface),
{
    lemma_parsed_unfolds(d);
    lemma_step_decreases(d);
    match parse_step(d).1 {
        StepView::Stop => {},
        StepView::Moved => lemma_parsed_marked(parse_step(d).0),
        StepView::Frame(f) => {
            lemma_parsed_marked(parse_step(d).0);
            let gs = parsed(parse_step(d).0).1;
            let fs = seq![f] + gs;
            assert forall|i: int| 0 <= i < fs.len() implies (#[trigger] fs[i]).is_header_frame
                == carries_headers(fs[i].hdr.typ) by {
                if i > 0 {
                    assert(fs[i] == gs[i - 1]);
                }
            }
        },
    }
}

proof fn lemma_fed_marked(d: DirectionView, seq: u32, data: Seq<u8>, now_us: u64)
    ensures
        marked(fed(d, seq, data, now_us).1),
{
    reveal(fed);
    let (reasm, gap) = pushed(d.reasm, seq, data, now_us);
    let got = DirectionView { reasm, ..d };
    lemma_parsed_marked(got);
    lemma_parsed_marked(gap_noted(got));
}

proof fn lemma_blocks_in_concat(a: Seq<(u64, Seq<u8>)>, b: Seq<(u64, Seq<u8>)>)
    ensures
        blocks_in(a + b) == blocks_in(a) + blocks_in(b),
    decreases b.len(),
{
    if b.len() == 0 {
        assert(a + b =~= a);
    } else {
        lemma_blocks_in_concat(a, b.drop_last());
        assert((a + b).drop_last() =~= a + b.drop_last());
    }
}

proof fn lemma_stamped_concat(a: Seq<Seq<u8>>, b: Seq<Seq<u8>>, ts: u64)
    ensures
        blocks_in(stamped(a + b, ts)) == blocks_in(stamped(a, ts)) + blocks_in(stamped(b, ts)),
{
    assert(stamped(a + b, ts) =~= stamped(a, ts) + stamped(b, ts));
    lemma_blocks_in_concat(stamped(a, ts), stamped(b, ts));
}

proof fn lemma_one_frame(typ: u8, fl: u8, sid: u32, payload: Seq<u8>, ts: u64)
    ensures
        blocks_in(stamped(seq![frame_bytes(typ, fl, sid, payload)], ts)) == if typ
            == FrameType::HEADERS || typ == FrameType::PUSH_PROMISE {
            1nat
        } else {
            0nat
        },
{
    let out = stamped(seq![frame_bytes(typ, fl, sid, payload)], ts);
    assert(out.last().1[3] == typ);
    assert(out.drop_last() =~= Seq::<(u64, Seq<u8>)>::empty());
    assert(blocks_in(out.drop_last()) == 0);
}

/// The frames of one block hold one block, and what continues it holds none.
proof fn lemma_cut_holds_one(
    typ: u8,
    base: u8,
    sid: u32,
    body: Seq<u8>,
    max: nat,
    ts: u64,
)
    requires
        carries_headers(typ),
    ensures
        blocks_in(stamped(cut_into_frames(typ, base, sid, body, max), ts)) == if typ
            == FrameType::CONTINUATION {
            0nat
        } else {
            1nat
        },
    decreases body.len(),
{
    if body.len() <= max || max == 0 {
        lemma_one_frame(typ, base | flags::END_HEADERS, sid, body, ts);
    } else {
        let first = seq![frame_bytes(typ, base, sid, body.take(max as int))];
        let rest = body.skip(max as int);
        lemma_one_frame(typ, base, sid, body.take(max as int), ts);
        lemma_cut_holds_one(FrameType::CONTINUATION, 0, sid, rest, max, ts);
        lemma_stamped_concat(
            first,
            cut_into_frames(FrameType::CONTINUATION, 0, sid, rest, max),
            ts,
        );
    }
}

proof fn lemma_emitted_blocks(fs: Seq<ProcessedFrameView>, ts: u64)
    requires
        marked(fs),
    ensures
        blocks_in(stamped(frames_emitted(fs), ts)) == completed(fs),
    decreases fs.len(),
{
    let none = stamped(Seq::<Seq<u8>>::empty(), ts);
    assert(none =~= Seq::<(u64, Seq<u8>)>::empty());
    if fs.len() > 0 {
        let front = fs.drop_last();
        let f = fs.last();
        assert(marked(front)) by {
            assert forall|i: int| 0 <= i < front.len() implies (
            #[trigger] front[i]).is_header_frame == carries_headers(front[i].hdr.typ) by {
                assert(front[i] == fs[i]);
            }
        }
        lemma_emitted_blocks(front, ts);
        lemma_stamped_concat(frames_emitted(front), frame_emitted(f), ts);
        assert(fs[fs.len() - 1] == f);
        if completes(f) {
            let b = f.decoded->Some_0;
            lemma_block_holds_one(b, ts);
        } else if !f.truncated && !f.is_header_frame {
            lemma_one_frame(f.hdr.typ, f.hdr.flags, f.hdr.stream_id, f.payload, ts);
        }
    }
}

proof fn lemma_block_holds_one(b: DecodedBlockView, ts: u64)
    ensures
        blocks_in(stamped(block_frames(b, DEFAULT_MAX_FRAME_SIZE), ts)) == 1,
{
    lemma_cut_holds_one(
        block_type(b),
        block_flags(b),
        b.stream_id,
        block_body(b),
        DEFAULT_MAX_FRAME_SIZE as nat,
        ts,
    );
}

proof fn lemma_markers_blocks(n: nat, ts: u64)
    ensures
        blocks_in(stamped(markers_emitted(n), ts)) == n,
    decreases n,
{
    if n == 0 {
        assert(stamped(markers_emitted(n), ts) =~= Seq::<(u64, Seq<u8>)>::empty());
    } else {
        lemma_markers_blocks((n - 1) as nat, ts);
        lemma_block_holds_one(failure_marker(), ts);
        lemma_stamped_concat(
            markers_emitted((n - 1) as nat),
            block_frames(failure_marker(), DEFAULT_MAX_FRAME_SIZE),
            ts,
        );
    }
}

/// Counting in two goes is counting at once.
proof fn lemma_counted_again(x: int, n: int, m: int)
    requires
        0 <= x,
        0 <= n,
        0 <= m,
    ensures
        counted(((x + n) % (usize::MAX + 1)) as usize, m) == (x + n + m) % (usize::MAX + 1),
{
    let w = usize::MAX + 1;
    lemma_add_mod_noop((x + n) % w, m, w);
    lemma_add_mod_noop(x + n, m, w);
    lemma_mod_twice(x + n, w);
}

proof fn lemma_headers_counted(r: Report, fs: Seq<ProcessedFrameView>)
    ensures
        frames_counted(r, fs).header_blocks == counted(r.header_blocks, completed(fs) as int),
        frames_counted(r, fs).decode_failures == r.decode_failures,
    decreases fs.len(),
{
    if fs.len() == 0 {
        lemma_small_mod(
            r.header_blocks as nat,
            (usize::MAX + 1) as nat,
        );
    } else {
        lemma_headers_counted(r, fs.drop_last());
        lemma_counted_again(r.header_blocks as int, completed(fs.drop_last()) as int, 1);
    }
}

/// Whether the output holds as many header blocks as are counted, decoded or not,
/// on a counter that wraps.
pub open spec fn blocks_reported(rep: Report, conns: Seq<ConnStateView>) -> bool {
    counted(rep.header_blocks, rep.decode_failures as int) == counted(
        0,
        blocks_out(conns) as int,
    )
}

/// What a payload adds to a direction's output is what it adds to the report.
proof fn lemma_payload_adds(r: Report, t: DirStateView, other: DirStateView, s: SegmentView, ts: u64)
    ensures
        ({
            let n = completed(payload_frames(t, s, ts));
            let m = payload_failures(t, s, ts);
            let rep = payload_counted(r, t, s, ts);
            let (a, b) = payload_taken(t, other, s, ts);
            &&& blocks_in(a.out) == blocks_in(t.out) + n + m
            &&& b.out == other.out
            &&& rep.header_blocks == counted(r.header_blocks, n as int)
            &&& rep.decode_failures == counted(r.decode_failures, m as int)
        }),
{
    let fs = payload_frames(t, s, ts);
    let m = payload_failures(t, s, ts);
    lemma_headers_counted(r, fs);
    if s.payload.len() > 0 {
        lemma_fed_marked(t.dir, s.seq, s.payload, ts);
        lemma_emitted_blocks(fs, ts);
        lemma_markers_blocks(m as nat, ts);
        lemma_blocks_in_concat(t.out, stamped(frames_emitted(fs), ts));
        lemma_blocks_in_concat(
            t.out + stamped(frames_emitted(fs), ts),
            stamped(markers_emitted(m as nat), ts),
        );
    }
}

/// Two counters that go up stay level with a third that goes up by as much.
proof fn lemma_counters_level(a: usize, b: usize, total: nat, n: nat, m: nat)
    requires
        counted(a, b as int) == counted(0, total as int),
    ensures
        counted(counted(a, n as int), counted(b, m as int) as int) == counted(
            0,
            (total + n + m) as int,
        ),
{
    let w = usize::MAX + 1;
    lemma_add_mod_noop((a + n) % w, (b + m) % w, w);
    lemma_add_mod_noop(a + n, b + m, w);
    lemma_mod_twice(a + n, w);
    lemma_mod_twice(b + m, w);
    lemma_add_mod_noop(a + b, (n + m) as int, w);
    lemma_add_mod_noop(total as int, (n + m) as int, w);
}

/// What a segment adds to its connection is what it adds to the report.
proof fn lemma_segment_adds(r: RebuilderView, s: SegmentView, ts: u64) -> (k: (nat, nat))
    ensures
        ({
            let c = conn_for(r, s, ts);
            let after = segment_replayed(r, s, ts).report;
            &&& conn_blocks(conn_replayed(r.seeds, c, s, ts)) == conn_blocks(c) + k.0 + k.1
            &&& after.header_blocks == counted(r.report.header_blocks, k.0 as int)
            &&& after.decode_failures == counted(r.report.decode_failures, k.1 as int)
        }),
{
    reveal(segment_counted);
    reveal(conn_replayed);
    let c = conn_for(r, s, ts);
    let opened = if opens_conn(r, s) {
        Report { conns: counted(r.report.conns, 1), ..r.report }
    } else {
        r.report
    };
    let t = at_hand(r.seeds, c.saw_syn, arriving(c, s), s);
    let other = if seg_src(s) == c.client {
        c.s2c
    } else {
        c.c2s
    };
    let rep = touch_counted(opened, r.seeds, c.saw_syn, arriving(c, s), s);
    lemma_payload_adds(rep, t, other, s, ts);
    (completed(payload_frames(t, s, ts)), payload_failures(t, s, ts) as nat)
}

proof fn lemma_blocks_out_update(conns: Seq<ConnStateView>, i: int, c: ConnStateView)
    requires
        0 <= i < conns.len(),
    ensures
        blocks_out(conns.update(i, c)) == blocks_out(conns) - conn_blocks(conns[i]) + conn_blocks(
            c,
        ),
    decreases conns.len(),
{
    let u = conns.update(i, c);
    if i == conns.len() - 1 {
        assert(u.drop_last() =~= conns.drop_last());
    } else {
        lemma_blocks_out_update(conns.drop_last(), i, c);
        assert(u.drop_last() =~= conns.drop_last().update(i, c));
    }
}

/// Whether every tuple leads to a connection.
pub open spec fn placed(r: RebuilderView) -> bool {
    forall|k: ConnKey| #[trigger] r.at.contains_key(k) ==> r.at[k] < r.conns.len()
}

/// No message is lost or made up on the way: the output of all connections
/// together, those on a tuple that was used again among them, holds exactly as
/// many header blocks as the report counts as decoded and as failed. So it is
/// before anything has happened, no packet changes it, and neither does the end of
/// the capture.
pub proof fn law_output_holds_the_reported_blocks(r: RebuilderView, frame: Seq<u8>, ts: u64)
    requires
        blocks_reported(r.report, r.conns),
        placed(r),
        r.conns.len() < usize::MAX,
    ensures
        blocks_reported(empty_report(), Seq::empty()),
        blocks_reported(packet_replayed(r, frame, ts).report, packet_replayed(r, frame, ts).conns),
        placed(packet_replayed(r, frame, ts)),
        blocks_reported(all_tallied(r.report, r.conns), r.conns),
{
    lemma_tally_keeps_blocks(r.report, r.conns);
    if let Some(s) = segment_in(frame) {
        let seen = RebuilderView {
            report: Report { packets_in: add64(r.report.packets_in, 1), ..r.report },
            ..r
        };
        let c = conn_for(seen, s, ts);
        let c2 = conn_replayed(seen.seeds, c, s, ts);
        let (n, m) = lemma_segment_adds(seen, s, ts);
        lemma_counters_level(
            r.report.header_blocks,
            r.report.decode_failures,
            blocks_out(r.conns),
            n,
            m,
        );
        if opens_conn(seen, s) {
            assert(r.conns.push(c2).drop_last() =~= r.conns);
            assert(conn_blocks(c) == 0);
        } else {
            lemma_blocks_out_update(
                r.conns,
                r.at[key_between(seg_src(s), seg_dst(s))] as int,
                c2,
            );
        }
    }
}

proof fn lemma_tally_keeps_blocks(rep: Report, conns: Seq<ConnStateView>)
    ensures
        all_tallied(rep, conns).header_blocks == rep.header_blocks,
        all_tallied(rep, conns).decode_failures == rep.decode_failures,
    decreases conns.len(),
{
    if conns.len() > 0 {
        lemma_tally_keeps_blocks(rep, conns.drop_last());
    }
}

} // verus!
