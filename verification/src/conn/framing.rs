//! Framing: where frames start, and that they do not depend on how the stream was
//! cut into segments.
use vstd::prelude::*;

use crate::bytes::{add32, add64, lemma_add32_twice, lemma_add64_twice, seq_distance};
use crate::conn::laws::{
    lemma_distance_after, lemma_parsed_keeps, lemma_parsed_keeps_seeking, lemma_parsed_unfolds,
    lemma_unparsed_after,
};
use crate::conn::{
    boundary_seq, discard_step, fed, flag, frame_handled, gap_noted, keeps_payload,
    lemma_boundary_from, lemma_frame_handled_keeps, lemma_step_decreases, midstream_state,
    parse_step, parsed, seeded, seek_step, start_state, ticked, unparsed_seq, DirectionView,
    ProcessedFrameView, StepView,
};
use crate::frame::{header_at, FrameHeader};
use crate::hpack::FieldView;
use crate::reassembly::{
    anchored, appended, consumed, drained, first_ready, gapped, hole_expired, lemma_drained_step,
    lemma_seq_follows_offset, pushed, tail_appended, ReassemblerView,
};

verus! {

// ---------------------------------------------------------------------------
// Where frames start
// ---------------------------------------------------------------------------

/// Whether frame boundaries are known: not being hunted for, past the preface,
/// and not seeking a snapshot point.
pub open spec fn framed(d: DirectionView) -> bool {
    !d.desynced && !d.expect_preface && d.pending_start_seq is None
}

/// Stream offset of the next frame boundary.
pub open spec fn boundary_off(d: DirectionView) -> u64 {
    add64(d.reasm.buf_off, d.discard as int)
}

/// The state once a segment is taken in and nothing of it is parsed yet.
pub open spec fn taken_in(d: DirectionView, seq: u32, data: Seq<u8>, now_us: u64) -> DirectionView {
    let (reasm, gap) = pushed(d.reasm, seq, data, now_us);
    let received = DirectionView { reasm, ..d };
    if gap {
        gap_noted(received)
    } else {
        received
    }
}

/// What a frame step does to the boundary.
proof fn lemma_frame_moves_boundary(d: DirectionView)
    requires
        framed(d),
        d.discard == 0,
        parse_step(d).1 is Frame,
    ensures
        ({
            let f = parse_step(d).1->Frame_0;
            let e = parse_step(d).0;
            &&& f.start_off == boundary_off(d)
            &&& f.start_seq == boundary_seq(d)
            &&& boundary_off(e) == add64(f.start_off, 9 + f.hdr.len)
            &&& boundary_seq(e) == add32(f.start_seq, 9 + f.hdr.len)
            &&& !e.expect_preface
            &&& e.pending_start_seq is None
            &&& e.desynced ==> e.poisoned
        }),
{
    let a = d.reasm.avail;
    let hdr = header_at(a);
    let off = d.reasm.buf_off;
    lemma_add64_twice(off, 9, hdr.len as int);
    lemma_seq_follows_offset(d.reasm.base_seq, off, 9 + hdr.len);
    let taken = DirectionView {
        reasm: consumed(d.reasm, 9 + hdr.len),
        frames: add64(d.frames, 1),
        ..d
    };
    lemma_frame_handled_keeps(taken, hdr, a.subrange(9, 9 + hdr.len));
    assert(frame_handled(taken, hdr, a.subrange(9, 9 + hdr.len)).0.desynced ==> frame_handled(
        taken,
        hdr,
        a.subrange(9, 9 + hdr.len),
    ).0.poisoned) by {
        reveal(frame_handled);
    }
    assert(add64(off, 0) == off);
    assert(add64(add64(off, 9 + hdr.len), 0) == add64(off, 9 + hdr.len));
}

/// The first frame that parsing takes off starts at the boundary; where it takes
/// none, the boundary stays.
pub proof fn lemma_first_frame(d: DirectionView)
    requires
        framed(d),
    ensures
        ({
            let (e, fs) = parsed(d);
            if fs.len() > 0 {
                fs[0].start_off == boundary_off(d) && fs[0].start_seq == boundary_seq(d)
            } else {
                framed(e) && boundary_off(e) == boundary_off(d) && boundary_seq(e) == boundary_seq(d)
            }
        }),
    decreases d.reasm.avail.len(),
{
    lemma_parsed_unfolds(d);
    if d.discard > 0 {
        if parse_step(d).1 is Moved {
            let n = d.reasm.avail.len() - parse_step(d).0.reasm.avail.len();
            lemma_add64_twice(d.reasm.buf_off, n, d.discard - n);
            lemma_first_frame(parse_step(d).0);
        }
    } else if parse_step(d).1 is Frame {
        lemma_frame_moves_boundary(d);
    }
}

proof fn lemma_drained_keeps_start(r: ReassemblerView)
    ensures
        drained(r).base_seq == r.base_seq,
        drained(r).buf_off == r.buf_off,
        drained(r).initialized == r.initialized,
    decreases r.ooo.len(),
{
    lemma_drained_step(r);
    let i = first_ready(r.ooo, r.next_seq, 0);
    if 0 <= i < r.ooo.len() {
        let rest = ReassemblerView { ooo: r.ooo.remove(i), ..r };
        lemma_drained_keeps_start(
            tail_appended(rest, r.ooo[i].1, -seq_distance(r.ooo[i].0, r.next_seq)),
        );
    }
}

/// Taking in a segment that reveals no loss leaves the boundary where it is.
pub proof fn lemma_boundary_stays(d: DirectionView, seq: u32, data: Seq<u8>, now_us: u64)
    requires
        d.reasm.initialized,
        !pushed(d.reasm, seq, data, now_us).1,
    ensures
        boundary_off(taken_in(d, seq, data, now_us)) == boundary_off(d),
        boundary_seq(taken_in(d, seq, data, now_us)) == boundary_seq(d),
{
    let ahead = seq_distance(seq, d.reasm.next_seq);
    lemma_drained_keeps_start(tail_appended(d.reasm, data, -ahead));
}

/// The next frame starts at the sequence number that a direction names: whatever
/// segment comes in, the first frame that it completes starts there, and as long
/// as it completes none, that is still the number. The direction has to know
/// where its stream starts and where frames do, and the segment must not reveal a
/// loss.
pub proof fn law_next_frame_starts_at_the_boundary(
    d: DirectionView,
    seq: u32,
    data: Seq<u8>,
    now_us: u64,
)
    requires
        framed(d),
        d.reasm.initialized,
        !pushed(d.reasm, seq, data, now_us).1,
    ensures
        ({
            let (e, fs) = fed(d, seq, data, now_us);
            if fs.len() > 0 {
                fs[0].start_off == boundary_off(d) && fs[0].start_seq == boundary_seq(d)
            } else {
                framed(e) && boundary_off(e) == boundary_off(d) && boundary_seq(e) == boundary_seq(d)
            }
        }),
{
    reveal(fed);
    reveal(parsed);
    lemma_boundary_stays(d, seq, data, now_us);
    lemma_first_frame(taken_in(d, seq, data, now_us));
}

/// Whether no frame loses the direction its place: a header frame that makes no
/// sense does.
pub open spec fn keeps_framing(d: DirectionView) -> bool
    decreases
            d.reasm.avail.len(),
            flag(d.pending_start_seq is Some),
            flag(d.desynced),
            flag(d.expect_preface),
{
    parse_step(d).1 !is Stop ==> {
        proof {
            lemma_step_decreases(d);
        }
        &&& parse_step(d).1 is Frame ==> !parse_step(d).0.desynced
        &&& keeps_framing(parse_step(d).0)
    }
}

/// Whether each frame starts where the one before it ends.
pub open spec fn contiguous(fs: Seq<ProcessedFrameView>) -> bool {
    forall|i: int, j: int|
        #![trigger fs[i], fs[j]]
        0 <= i && j == i + 1 && j < fs.len() ==> {
            &&& fs[j].start_off == add64(fs[i].start_off, 9 + fs[i].hdr.len)
            &&& fs[j].start_seq == add32(fs[i].start_seq, 9 + fs[i].hdr.len)
        }
}

proof fn lemma_frames_contiguous(d: DirectionView)
    requires
        keeps_framing(d),
    ensures
        contiguous(parsed(d).1),
        parsed(d).1.len() > 0 ==> ({
            let last = parsed(d).1.last();
            boundary_seq(parsed(d).0) == add32(last.start_seq, 9 + last.hdr.len)
        }),
    decreases
            d.reasm.avail.len(),
            flag(d.pending_start_seq is Some),
            flag(d.desynced),
            flag(d.expect_preface),
{
    lemma_parsed_unfolds(d);
    lemma_step_decreases(d);
    match parse_step(d).1 {
        StepView::Stop => {},
        StepView::Moved => {
            lemma_frames_contiguous(parse_step(d).0);
        },
        StepView::Frame(f) => {
            let e = parse_step(d).0;
            lemma_frames_contiguous(e);
            lemma_frame_moves_boundary(d);
            lemma_first_frame(e);
            let gs = parsed(e).1;
            let fs = seq![f] + gs;
            assert forall|i: int, j: int|
                #![trigger fs[i], fs[j]]
                0 <= i && j == i + 1 && j < fs.len() implies {
                &&& fs[j].start_off == add64(fs[i].start_off, 9 + fs[i].hdr.len)
                &&& fs[j].start_seq == add32(fs[i].start_seq, 9 + fs[i].hdr.len)
            } by {
                assert(fs[j] == gs[j - 1]);
                if i > 0 {
                    assert(fs[i] == gs[i - 1]);
                }
            }
            if gs.len() > 0 {
                assert(fs.last() == gs.last());
            } else {
                assert(fs.last() == f);
            }
        },
    }
}

proof fn lemma_unpoisoned_keeps_framing(d: DirectionView)
    requires
        !parsed(d).0.poisoned,
    ensures
        keeps_framing(d),
    decreases
            d.reasm.avail.len(),
            flag(d.pending_start_seq is Some),
            flag(d.desynced),
            flag(d.expect_preface),
{
    lemma_parsed_unfolds(d);
    lemma_step_decreases(d);
    if parse_step(d).1 !is Stop {
        lemma_unpoisoned_keeps_framing(parse_step(d).0);
        if parse_step(d).1 is Frame {
            lemma_parsed_keeps(parse_step(d).0);
            lemma_frame_moves_boundary(d);
        }
    }
}

/// Whether a frame says what it has: its whole payload, or, where that was not
/// kept, nothing but its header.
pub open spec fn whole_or_bare(f: ProcessedFrameView) -> bool {
    &&& !f.truncated ==> f.payload.len() == f.hdr.len
    &&& f.truncated ==> f.payload.len() == 0 && f.decoded is None && f.settings_table_size is None
}

/// Whether the frames that took a direction from `d` to `e` say what they have,
/// stand at the sequence numbers of their offsets, and are all counted.
pub open spec fn accounted_for(
    d: DirectionView,
    e: DirectionView,
    fs: Seq<ProcessedFrameView>,
) -> bool {
    &&& forall|i: int| 0 <= i < fs.len() ==> whole_or_bare(#[trigger] fs[i])
    &&& forall|i: int|
        0 <= i < fs.len() ==> (#[trigger] fs[i]).start_seq == add32(
            e.reasm.base_seq,
            fs[i].start_off as int,
        )
    &&& e.frames == add64(d.frames, fs.len() as int)
}

proof fn lemma_step_accounted(d: DirectionView)
    ensures
        parse_step(d).0.reasm.base_seq == d.reasm.base_seq,
        match parse_step(d).1 {
            StepView::Frame(f) => {
                &&& whole_or_bare(f)
                &&& f.start_seq == add32(d.reasm.base_seq, f.start_off as int)
                &&& parse_step(d).0.frames == add64(d.frames, 1)
            },
            _ => parse_step(d).0.frames == d.frames,
        },
{
    if d.reasm.avail.len() >= 9 {
        let hdr = header_at(d.reasm.avail);
        let payload = d.reasm.avail.subrange(9, 9 + hdr.len);
        let taken = DirectionView {
            reasm: consumed(d.reasm, 9 + hdr.len),
            frames: add64(d.frames, 1),
            ..d
        };
        lemma_frame_handled_keeps(taken, hdr, payload);
        assert(frame_handled(taken, hdr, payload).0.frames == taken.frames) by {
            reveal(frame_handled);
        }
    }
}

proof fn lemma_parsed_accounted(d: DirectionView)
    ensures
        accounted_for(d, parsed(d).0, parsed(d).1),
        parsed(d).0.reasm.base_seq == d.reasm.base_seq,
    decreases
            d.reasm.avail.len(),
            flag(d.pending_start_seq is Some),
            flag(d.desynced),
            flag(d.expect_preface),
{
    lemma_parsed_unfolds(d);
    lemma_step_accounted(d);
    lemma_step_decreases(d);
    assert(add64(d.frames, 0) == d.frames);
    let d1 = parse_step(d).0;
    match parse_step(d).1 {
        StepView::Stop => {},
        StepView::Moved => lemma_parsed_accounted(d1),
        StepView::Frame(f) => {
            lemma_parsed_accounted(d1);
            let gs = parsed(d1).1;
            let fs = seq![f] + gs;
            lemma_add64_twice(d.frames, 1, gs.len() as int);
            assert forall|i: int| 0 <= i < fs.len() implies whole_or_bare(#[trigger] fs[i])
                && fs[i].start_seq == add32(d.reasm.base_seq, fs[i].start_off as int) by {
                if i > 0 {
                    assert(fs[i] == gs[i - 1]);
                }
            }
        },
    }
}

/// How many times parsing finds a frame boundary that it was hunting for.
spec fn boundaries_found(d: DirectionView) -> nat
    decreases
            d.reasm.avail.len(),
            flag(d.pending_start_seq is Some),
            flag(d.desynced),
            flag(d.expect_preface),
{
    if parse_step(d).1 is Stop {
        0
    } else {
        proof {
            lemma_step_decreases(d);
        }
        boundaries_found(parse_step(d).0) + if d.desynced && !parse_step(d).0.desynced {
            1nat
        } else {
            0nat
        }
    }
}

/// What one step has to do with hunting.
proof fn lemma_step_hunts(d: DirectionView)
    ensures
        ({
            let e = parse_step(d).0;
            let found = d.desynced && !e.desynced;
            &&& e.resyncs == add64(d.resyncs, if found {
                1
            } else {
                0
            })
            &&& found ==> e.reasm.avail.len() >= 9 && d.pending_start_seq is None
                && e.pending_start_seq is None && e.reasm.avail.len() <= d.reasm.avail.len()
            &&& parse_step(d).1 is Frame ==> !d.desynced && d.pending_start_seq is None
                && e.reasm.avail.len() + 9 <= d.reasm.avail.len()
            &&& e.reasm.avail.len() <= d.reasm.avail.len()
            &&& parse_step(d).1 is Moved && d.pending_start_seq is None ==> e.pending_start_seq
                is None && (e.desynced ==> d.desynced)
        }),
{
    assert(add64(d.resyncs, 0) == d.resyncs);
    lemma_boundary_from(d.reasm.avail, 0);
    if d.reasm.avail.len() >= 9 {
        let hdr = header_at(d.reasm.avail);
        let payload = d.reasm.avail.subrange(9, 9 + hdr.len);
        let taken = DirectionView {
            reasm: consumed(d.reasm, 9 + hdr.len),
            frames: add64(d.frames, 1),
            ..d
        };
        lemma_frame_handled_keeps(taken, hdr, payload);
        assert(frame_handled(taken, hdr, payload).0.resyncs == taken.resyncs) by {
            reveal(frame_handled);
        }
    }
}

proof fn lemma_boundaries_found(d: DirectionView)
    ensures
        parsed(d).0.resyncs == add64(d.resyncs, boundaries_found(d) as int),
        d.desynced && boundaries_found(d) == 0 ==> parsed(d).0.desynced,
        !d.desynced && boundaries_found(d) == 0 && !parsed(d).0.desynced ==> keeps_framing(d),
        9 * boundaries_found(d) <= d.reasm.avail.len(),
        !d.desynced && d.pending_start_seq is None ==> boundaries_found(d) == 0 || 9
            * boundaries_found(d) + 9 <= d.reasm.avail.len(),
    decreases
            d.reasm.avail.len(),
            flag(d.pending_start_seq is Some),
            flag(d.desynced),
            flag(d.expect_preface),
{
    lemma_parsed_unfolds(d);
    lemma_step_decreases(d);
    lemma_step_hunts(d);
    assert(add64(d.resyncs, 0) == d.resyncs);
    if parse_step(d).1 !is Stop {
        let e = parse_step(d).0;
        lemma_boundaries_found(e);
        let k = boundaries_found(e) as int;
        let one: int = if d.desynced && !e.desynced {
            1
        } else {
            0
        };
        lemma_add64_twice(d.resyncs, one, k);
    }
}

/// What holds of the frames of one call that took a direction from `d` to `e`:
/// they are accounted for. Where the direction is not poisoned in the end, or was
/// in step before and after and had no boundary to hunt for, they also follow upon
/// each other without a gap, and the boundary is then where the last of them ends.
pub open spec fn frames_in_order(
    d: DirectionView,
    e: DirectionView,
    fs: Seq<ProcessedFrameView>,
) -> bool {
    &&& accounted_for(d, e, fs)
    &&& !e.poisoned || (!d.desynced && !e.desynced && e.resyncs == d.resyncs) ==> {
        &&& contiguous(fs)
        &&& fs.len() > 0 ==> boundary_seq(e) == add32(fs.last().start_seq, 9 + fs.last().hdr.len)
    }
}

proof fn lemma_parsed_in_order(d: DirectionView)
    requires
        d.reasm.avail.len() <= usize::MAX,
    ensures
        accounted_for(d, parsed(d).0, parsed(d).1),
        keeps_framing(d) ==> contiguous(parsed(d).1),
        keeps_framing(d) && parsed(d).1.len() > 0 ==> boundary_seq(parsed(d).0) == add32(
            parsed(d).1.last().start_seq,
            9 + parsed(d).1.last().hdr.len,
        ),
        !parsed(d).0.poisoned ==> keeps_framing(d),
        !parsed(d).0.desynced && parsed(d).0.resyncs == d.resyncs ==> keeps_framing(d)
            && !d.desynced,
{
    lemma_parsed_accounted(d);
    lemma_boundaries_found(d);
    if keeps_framing(d) {
        lemma_frames_contiguous(d);
    }
    if !parsed(d).0.poisoned {
        lemma_unpoisoned_keeps_framing(d);
    }
    if parsed(d).0.resyncs == d.resyncs {
        lemma_add64_injective(d.resyncs, boundaries_found(d) as int);
    }
}

proof fn lemma_add64_injective(x: u64, n: int)
    requires
        0 <= n < 0x1_0000_0000_0000_0000,
        add64(x, n) == x,
    ensures
        n == 0,
{
}

/// The frames that one segment completes, or that come to light as a moment
/// passes, are in order: each has its whole payload or is marked as lacking it,
/// stands at the sequence number of its offset, is counted, and starts where the
/// one before it ends. The last can only fail after a header frame that makes no
/// sense, which poisons the direction and has it hunt for its place.
pub proof fn law_frames_of_a_call_are_in_order(
    d: DirectionView,
    seq: u32,
    data: Seq<u8>,
    now_us: u64,
)
    requires
        taken_in(d, seq, data, now_us).reasm.avail.len() <= usize::MAX,
        gapped(d.reasm).avail.len() <= usize::MAX,
    ensures
        frames_in_order(d, fed(d, seq, data, now_us).0, fed(d, seq, data, now_us).1),
        frames_in_order(d, ticked(d, now_us).0, ticked(d, now_us).1),
        keeps_framing(taken_in(d, seq, data, now_us)) ==> contiguous(
            fed(d, seq, data, now_us).1,
        ),
{
    reveal(fed);
    reveal(ticked);
    lemma_parsed_in_order(taken_in(d, seq, data, now_us));
    if hole_expired(d.reasm, now_us) {
        lemma_parsed_in_order(gap_noted(DirectionView { reasm: gapped(d.reasm), ..d }));
    } else {
        assert(add64(d.frames, 0) == d.frames);
    }
}

// ---------------------------------------------------------------------------
// Segmentation
// ---------------------------------------------------------------------------

/// The state once `x` continues the stream in order.
pub open spec fn longer(d: DirectionView, x: Seq<u8>) -> DirectionView {
    DirectionView { reasm: appended(d.reasm, x), ..d }
}

/// Whether frame boundaries stay known all through parsing.
pub open spec fn stays_synced(d: DirectionView) -> bool
    decreases
            d.reasm.avail.len(),
            flag(d.pending_start_seq is Some),
            flag(d.desynced),
            flag(d.expect_preface),
{
    &&& !d.desynced
    &&& parse_step(d).1 !is Stop ==> {
        proof {
            lemma_step_decreases(d);
        }
        stays_synced(parse_step(d).0)
    }
}

proof fn lemma_consumed_longer(r: ReassemblerView, x: Seq<u8>, n: int)
    requires
        0 <= n <= r.avail.len(),
    ensures
        consumed(appended(r, x), n) == appended(consumed(r, n), x),
{
    assert((r.avail + x).skip(n) =~= r.avail.skip(n) + x);
    if n < r.avail.len() + x.len() {
    } else {
        assert(n == r.avail.len() && x.len() == 0);
    }
}

/// Consuming in two goes is consuming at once.
proof fn lemma_consumed_twice(r: ReassemblerView, n: int, m: int)
    requires
        0 <= n,
        0 <= m,
        n + m <= r.avail.len(),
    ensures
        consumed(consumed(r, n), m) == consumed(r, n + m),
{
    assert(r.avail.skip(n).skip(m) =~= r.avail.skip(n + m));
    lemma_add64_twice(r.buf_off, n, m);
}

proof fn lemma_frame_handled_longer(
    d: DirectionView,
    hdr: FrameHeader,
    payload: Seq<u8>,
    x: Seq<u8>,
)
    ensures
        frame_handled(longer(d, x), hdr, payload) == (
            longer(frame_handled(d, hdr, payload).0, x),
            frame_handled(d, hdr, payload).1,
        ),
{
    reveal(frame_handled);
}

/// The bytes that a step skips on its way to a frame boundary.
spec fn skipping(d: DirectionView) -> int {
    if d.discard > 0 {
        d.discard as int
    } else if d.pending_start_seq is Some {
        seq_distance(d.pending_start_seq->Some_0, unparsed_seq(d.reasm))
    } else {
        0
    }
}

proof fn lemma_step_longer(d: DirectionView, x: Seq<u8>)
    requires
        !d.desynced,
        parse_step(d).1 !is Stop,
        skipping(d) <= d.reasm.avail.len(),
    ensures
        parse_step(longer(d, x)) == (longer(parse_step(d).0, x), parse_step(d).1),
{
    let a = d.reasm.avail;
    let l = longer(d, x);
    assert(unparsed_seq(l.reasm) == unparsed_seq(d.reasm));
    if d.discard > 0 {
        lemma_consumed_longer(d.reasm, x, d.discard as int);
    } else if d.pending_start_seq is Some {
        let delta = seq_distance(d.pending_start_seq->Some_0, unparsed_seq(d.reasm));
        if delta > 0 {
            lemma_consumed_longer(d.reasm, x, delta);
        }
    } else if d.expect_preface {
        assert((a + x).take(24) =~= a.take(24));
        lemma_consumed_longer(d.reasm, x, 24);
    } else {
        let hdr = header_at(a);
        assert(header_at(a + x) == hdr);
        if !keeps_payload(d, hdr) {
            lemma_consumed_longer(d.reasm, x, 9);
        } else {
            lemma_consumed_longer(d.reasm, x, 9 + hdr.len);
            assert((a + x).subrange(9, 9 + hdr.len) =~= a.subrange(9, 9 + hdr.len));
            lemma_frame_handled_longer(
                DirectionView {
                    reasm: consumed(d.reasm, 9 + hdr.len),
                    frames: add64(d.frames, 1),
                    ..d
                },
                hdr,
                a.subrange(9, 9 + hdr.len),
                x,
            );
        }
    }
}

proof fn lemma_longer_by_nothing(d: DirectionView, x: Seq<u8>)
    requires
        x.len() == 0,
    ensures
        longer(d, x) == d,
{
    assert(d.reasm.avail + x =~= d.reasm.avail);
    assert(add32(d.reasm.next_seq, 0) == d.reasm.next_seq);
    assert(add64(d.reasm.delivered_off, 0) == d.reasm.delivered_off);
    assert(add64(d.reasm.bytes, 0) == d.reasm.bytes);
    assert(longer(d, x).reasm =~= d.reasm);
}

/// Discarding more than there is: what is there goes, and with more bytes it
/// goes on as if they had been there.
proof fn lemma_discard_runs_dry(d: DirectionView, x: Seq<u8>)
    requires
        d.discard > d.reasm.avail.len() > 0,
        x.len() > 0,
    ensures
        discard_step(discard_step(d).0).1 is Stop,
        discard_step(discard_step(d).0).0 == discard_step(d).0,
        discard_step(longer(d, x)).1 is Moved,
        discard_step(longer(discard_step(d).0, x)) == discard_step(longer(d, x)),
{
    let n = d.reasm.avail.len() as int;
    let k = d.discard as int;
    let l = longer(d, x);
    let m = if k < n + x.len() {
        k
    } else {
        n + x.len()
    };
    lemma_consumed_longer(d.reasm, x, n);
    lemma_consumed_twice(l.reasm, n, m - n);
}

/// The same of seeking.
proof fn lemma_seek_runs_dry(d: DirectionView, target: u32, x: Seq<u8>)
    requires
        seq_distance(target, unparsed_seq(d.reasm)) > d.reasm.avail.len() > 0,
        x.len() > 0,
    ensures
        seek_step(seek_step(d, target).0, target).1 is Stop,
        seek_step(seek_step(d, target).0, target).0 == seek_step(d, target).0,
        seek_step(longer(d, x), target).1 is Moved,
        seek_step(longer(seek_step(d, target).0, x), target) == seek_step(longer(d, x), target),
{
    let n = d.reasm.avail.len() as int;
    let k = seq_distance(target, unparsed_seq(d.reasm));
    let d1 = seek_step(d, target).0;
    let l = longer(d, x);
    let m = if k < n + x.len() {
        k
    } else {
        n + x.len()
    };
    lemma_unparsed_after(d.reasm, n);
    lemma_distance_after(target, unparsed_seq(d.reasm), n);
    assert(unparsed_seq(l.reasm) == unparsed_seq(d.reasm));
    assert(unparsed_seq(longer(d1, x).reasm) == unparsed_seq(d1.reasm));
    lemma_consumed_longer(d.reasm, x, n);
    lemma_consumed_twice(l.reasm, n, m - n);
    lemma_add64_twice(d.pre_snapshot_skipped, n, m - n);
}

/// Skipping that outruns the bytes at hand: they all go, and nothing else
/// happens until there are more.
proof fn lemma_skip_runs_dry(d: DirectionView, x: Seq<u8>)
    requires
        !d.desynced,
        skipping(d) > d.reasm.avail.len(),
    ensures
        parsed(d).1.len() == 0,
        parsed(longer(d, x)) == parsed(longer(parsed(d).0, x)),
{
    lemma_parsed_unfolds(d);
    if d.reasm.avail.len() == 0 {
        assert(parsed(d).0 == d);
    } else {
        let d1 = parse_step(d).0;
        let some = seq![0u8];
        lemma_parsed_unfolds(d1);
        if d.discard > 0 {
            lemma_discard_runs_dry(d, some);
        } else {
            lemma_seek_runs_dry(d, d.pending_start_seq->Some_0, some);
        }
        assert(parse_step(d1) == (d1, StepView::Stop));
        assert(parsed(d).0 == d1);
        if x.len() == 0 {
            lemma_longer_by_nothing(d, x);
            lemma_longer_by_nothing(d1, x);
        } else {
            lemma_parsed_unfolds(longer(d, x));
            lemma_parsed_unfolds(longer(d1, x));
            if d.discard > 0 {
                lemma_discard_runs_dry(d, x);
            } else {
                lemma_seek_runs_dry(d, d.pending_start_seq->Some_0, x);
            }
            assert(parse_step(longer(d, x)) == parse_step(longer(d1, x)));
        }
    }
}

/// One cut: parsing what is there and then what follows gives the same frames, and
/// the same state, as parsing all of it at once, as long as frame boundaries stay
/// known.
pub proof fn law_segmentation_does_not_matter(d: DirectionView, x: Seq<u8>)
    requires
        stays_synced(d),
    ensures
        parsed(longer(d, x)).0 == parsed(longer(parsed(d).0, x)).0,
        parsed(longer(d, x)).1 == parsed(d).1 + parsed(longer(parsed(d).0, x)).1,
    decreases
            d.reasm.avail.len(),
            flag(d.pending_start_seq is Some),
            flag(d.desynced),
            flag(d.expect_preface),
{
    reveal(parsed);
    let rest = parsed(longer(parsed(d).0, x)).1;
    if skipping(d) > d.reasm.avail.len() {
        lemma_skip_runs_dry(d, x);
        assert(parsed(d).1 + rest =~= rest);
    } else {
        lemma_step_decreases(d);
        lemma_step_decreases(longer(d, x));
        match parse_step(d).1 {
            StepView::Stop => {
                assert(parse_step(d).0 == d);
                assert(parsed(d).1 + rest =~= rest);
            },
            StepView::Moved => {
                lemma_step_longer(d, x);
                law_segmentation_does_not_matter(parse_step(d).0, x);
            },
            StepView::Frame(f) => {
                lemma_step_longer(d, x);
                let d1 = parse_step(d).0;
                law_segmentation_does_not_matter(d1, x);
                assert(seq![f] + (parsed(d1).1 + rest) =~= seq![f] + parsed(d1).1 + rest);
            },
        }
    }
}

/// A direction that has its stream from the start, or knows where to find its
/// place in it, stays synced unless it is poisoned or misaligned in the end.
pub proof fn lemma_unpoisoned_stays_synced(d: DirectionView)
    requires
        !d.desynced,
        !parsed(d).0.poisoned,
        !parsed(d).0.snapshot_misaligned,
    ensures
        stays_synced(d),
    decreases
            d.reasm.avail.len(),
            flag(d.pending_start_seq is Some),
            flag(d.desynced),
            flag(d.expect_preface),
{
    lemma_parsed_unfolds(d);
    lemma_step_decreases(d);
    if parse_step(d).1 !is Stop {
        lemma_parsed_keeps(parse_step(d).0);
        if parse_step(d).1 is Frame {
            lemma_frame_moves_boundary(d);
        }
        lemma_unpoisoned_stays_synced(parse_step(d).0);
    }
}

/// Whether there is nothing to be done until more bytes come.
pub open spec fn settled(d: DirectionView) -> bool {
    parse_step(d) == (d, StepView::Stop)
}

/// What holds of all the bytes holds of the first of them, and of the rest after
/// those.
pub proof fn lemma_synced_either_side(d: DirectionView, x: Seq<u8>)
    requires
        stays_synced(longer(d, x)),
    ensures
        stays_synced(d),
        settled(parsed(d).0),
        stays_synced(longer(parsed(d).0, x)),
    decreases
            d.reasm.avail.len(),
            flag(d.pending_start_seq is Some),
            flag(d.desynced),
            flag(d.expect_preface),
{
    lemma_parsed_unfolds(d);
    lemma_step_decreases(d);
    lemma_step_decreases(longer(d, x));
    if skipping(d) > d.reasm.avail.len() {
        if d.reasm.avail.len() == 0 {
            assert(parsed(d).0 == d);
        } else {
            let d1 = parse_step(d).0;
            let some = seq![0u8];
            lemma_parsed_unfolds(d1);
            lemma_step_decreases(d1);
            if d.discard > 0 {
                lemma_discard_runs_dry(d, some);
            } else {
                lemma_seek_runs_dry(d, d.pending_start_seq->Some_0, some);
            }
            assert(parse_step(d1) == (d1, StepView::Stop));
            assert(parsed(d).0 == d1);
            assert(stays_synced(d1));
            assert(stays_synced(d));
            if x.len() == 0 {
                lemma_longer_by_nothing(d1, x);
            } else {
                lemma_step_decreases(longer(d1, x));
                if d.discard > 0 {
                    lemma_discard_runs_dry(d, x);
                } else {
                    lemma_seek_runs_dry(d, d.pending_start_seq->Some_0, x);
                }
                assert(parse_step(longer(d, x)) == parse_step(longer(d1, x)));
            }
        }
    } else if parse_step(d).1 !is Stop {
        lemma_step_longer(d, x);
        lemma_synced_either_side(parse_step(d).0, x);
    } else {
        assert(parse_step(d).0 == d);
    }
}

/// And the other way round.
pub proof fn lemma_synced_joins(d: DirectionView, x: Seq<u8>)
    requires
        stays_synced(d),
        stays_synced(longer(parsed(d).0, x)),
    ensures
        stays_synced(longer(d, x)),
    decreases
            d.reasm.avail.len(),
            flag(d.pending_start_seq is Some),
            flag(d.desynced),
            flag(d.expect_preface),
{
    lemma_parsed_unfolds(d);
    lemma_step_decreases(d);
    lemma_step_decreases(longer(d, x));
    if skipping(d) > d.reasm.avail.len() {
        if d.reasm.avail.len() == 0 {
            assert(parsed(d).0 == d);
        } else {
            let d1 = parse_step(d).0;
            let some = seq![0u8];
            lemma_parsed_unfolds(d1);
            lemma_step_decreases(d1);
            if d.discard > 0 {
                lemma_discard_runs_dry(d, some);
            } else {
                lemma_seek_runs_dry(d, d.pending_start_seq->Some_0, some);
            }
            assert(parse_step(d1) == (d1, StepView::Stop));
            assert(parsed(d).0 == d1);
            if x.len() == 0 {
                lemma_longer_by_nothing(d, x);
            } else {
                lemma_step_decreases(longer(d1, x));
                if d.discard > 0 {
                    lemma_discard_runs_dry(d, x);
                } else {
                    lemma_seek_runs_dry(d, d.pending_start_seq->Some_0, x);
                }
                assert(parse_step(longer(d, x)) == parse_step(longer(d1, x)));
            }
        }
    } else if parse_step(d).1 !is Stop {
        lemma_step_longer(d, x);
        lemma_synced_joins(parse_step(d).0, x);
    } else {
        assert(parse_step(d).0 == d);
    }
}

/// A direction that knows its place in the end has done all that it can.
pub proof fn lemma_parsed_settles(d: DirectionView)
    requires
        !parsed(d).0.desynced,
    ensures
        settled(parsed(d).0),
    decreases
            d.reasm.avail.len(),
            flag(d.pending_start_seq is Some),
            flag(d.desynced),
            flag(d.expect_preface),
{
    lemma_parsed_unfolds(d);
    lemma_step_decreases(d);
    if parse_step(d).1 !is Stop {
        lemma_parsed_settles(parse_step(d).0);
    } else {
        assert(parse_step(d).0 == d);
    }
}

/// A direction that stays synced is so in the end.
pub proof fn lemma_synced_in_the_end(d: DirectionView)
    requires
        stays_synced(d),
    ensures
        !parsed(d).0.desynced,
    decreases
            d.reasm.avail.len(),
            flag(d.pending_start_seq is Some),
            flag(d.desynced),
            flag(d.expect_preface),
{
    lemma_parsed_unfolds(d);
    lemma_step_decreases(d);
    if parse_step(d).1 !is Stop {
        lemma_synced_in_the_end(parse_step(d).0);
    }
}

/// The segments of a stream, one after the other.
pub open spec fn flat(pieces: Seq<Seq<u8>>) -> Seq<u8>
    decreases pieces.len(),
{
    if pieces.len() == 0 {
        Seq::empty()
    } else {
        pieces[0] + flat(pieces.drop_first())
    }
}

/// The state once consecutive segments are fed one by one, the first of them at
/// sequence number `seq`, and all the frames that they complete.
pub open spec fn fed_all(d: DirectionView, seq: u32, pieces: Seq<Seq<u8>>, times: Seq<u64>) -> (
    DirectionView,
    Seq<ProcessedFrameView>,
)
    decreases pieces.len(),
{
    if pieces.len() == 0 {
        (d, Seq::empty())
    } else {
        let (e, fs) = fed(d, seq, pieces[0], times[0]);
        let (last, gs) = fed_all(
            e,
            add32(seq, pieces[0].len() as int),
            pieces.drop_first(),
            times.drop_first(),
        );
        (last, fs + gs)
    }
}

/// Whether `seq` is the number at which the stream goes on, with no holes: the
/// expected one, or the first one at all.
pub open spec fn continues(r: ReassemblerView, seq: u32) -> bool {
    &&& r.initialized ==> r.next_seq == seq
    &&& r.ooo.len() == 0
    &&& r.ooo_since_us is None
}

/// The state once the stream is known to start at `seq`, where that was not known.
pub open spec fn begun(d: DirectionView, seq: u32) -> DirectionView {
    DirectionView { reasm: anchored(d.reasm, seq), ..d }
}

/// Feeding what comes next.
pub proof fn lemma_fed_in_order(d: DirectionView, seq: u32, data: Seq<u8>, now_us: u64)
    requires
        continues(d.reasm, seq),
        data.len() > 0,
    ensures
        fed(d, seq, data, now_us) == parsed(longer(begun(d, seq), data)),
{
    reveal(fed);
    reveal(parsed);
    let r = anchored(d.reasm, seq);
    assert(seq_distance(seq, r.next_seq) == 0);
    assert(data.skip(0) =~= data);
    lemma_drained_step(appended(r, data));
    assert(pushed(d.reasm, seq, data, now_us).0 =~= appended(r, data));
}

/// What parsing leaves alone.
pub proof fn lemma_parsed_keeps_order(d: DirectionView)
    ensures
        parsed(d).0.reasm.initialized == d.reasm.initialized,
        parsed(d).0.reasm.next_seq == d.reasm.next_seq,
        parsed(d).0.reasm.ooo == d.reasm.ooo,
        parsed(d).0.reasm.ooo_since_us == d.reasm.ooo_since_us,
    decreases
            d.reasm.avail.len(),
            flag(d.pending_start_seq is Some),
            flag(d.desynced),
            flag(d.expect_preface),
{
    lemma_parsed_unfolds(d);
    lemma_step_decreases(d);
    if d.reasm.avail.len() >= 9 {
        let hdr = header_at(d.reasm.avail);
        let taken = DirectionView {
            reasm: consumed(d.reasm, 9 + hdr.len),
            frames: add64(d.frames, 1),
            ..d
        };
        lemma_frame_handled_keeps(taken, hdr, d.reasm.avail.subrange(9, 9 + hdr.len));
    }
    if parse_step(d).1 !is Stop {
        lemma_parsed_keeps_order(parse_step(d).0);
    }
}

pub proof fn lemma_longer_twice(d: DirectionView, x: Seq<u8>, y: Seq<u8>)
    ensures
        longer(longer(d, x), y) == longer(d, x + y),
{
    let r = d.reasm;
    lemma_add32_twice(r.next_seq, x.len() as int, y.len() as int);
    lemma_add64_twice(r.delivered_off, x.len() as int, y.len() as int);
    lemma_add64_twice(r.bytes, x.len() as int, y.len() as int);
    assert(r.avail + x + y =~= r.avail + (x + y));
    assert(longer(longer(d, x), y).reasm =~= longer(d, x + y).reasm);
}

/// One more cut, after the first segment.
proof fn lemma_first_cut(
    d: DirectionView,
    seq: u32,
    p: Seq<u8>,
    x: Seq<u8>,
    now_us: u64,
    then_us: u64,
)
    requires
        p.len() > 0,
        continues(d.reasm, seq),
        stays_synced(longer(begun(d, seq), p + x)),
    ensures
        ({
            let e = fed(d, seq, p, now_us).0;
            let next = add32(seq, p.len() as int);
            &&& settled(e)
            &&& continues(e.reasm, next)
            &&& begun(e, next) == e
            &&& stays_synced(longer(e, x))
            &&& fed(d, seq, p + x, then_us).0 == fed(e, next, x, then_us).0
            &&& fed(d, seq, p + x, then_us).1 == fed(d, seq, p, now_us).1 + fed(
                e,
                next,
                x,
                then_us,
            ).1
        }),
{
    let b = longer(begun(d, seq), p);
    let next = add32(seq, p.len() as int);
    lemma_fed_in_order(d, seq, p, now_us);
    lemma_longer_twice(begun(d, seq), p, x);
    lemma_synced_either_side(b, x);
    let e = parsed(b).0;
    lemma_parsed_keeps_order(b);
    assert(continues(e.reasm, next));
    assert(begun(e, next) == e);
    law_segmentation_does_not_matter(b, x);
    lemma_fed_in_order(d, seq, p + x, then_us);
    lemma_fed_next(e, next, x, then_us);
}

/// Feeding what comes next, if anything does.
pub proof fn lemma_fed_next(d: DirectionView, seq: u32, x: Seq<u8>, now_us: u64)
    requires
        continues(d.reasm, seq),
        begun(d, seq) == d,
    ensures
        fed(d, seq, x, now_us) == parsed(longer(d, x)),
{
    reveal(fed);
    reveal(parsed);
    if x.len() > 0 {
        lemma_fed_in_order(d, seq, x, now_us);
    } else {
        lemma_longer_by_nothing(d, x);
    }
}

/// Nothing comes of nothing.
proof fn lemma_fed_nothing(d: DirectionView, seq: u32, x: Seq<u8>, now_us: u64)
    requires
        settled(d),
        x.len() == 0,
    ensures
        fed(d, seq, x, now_us) == (d, Seq::<ProcessedFrameView>::empty()),
{
    reveal(fed);
    reveal(parsed);
    lemma_parsed_unfolds(d);
}

/// Any number of cuts, anywhere, at any times: feeding consecutive segments one by
/// one gives the frames, and the state, that feeding all their bytes at once
/// gives, as long as frame boundaries stay known.
pub proof fn law_cuts_do_not_matter(
    d: DirectionView,
    seq: u32,
    pieces: Seq<Seq<u8>>,
    times: Seq<u64>,
    now_us: u64,
)
    requires
        settled(d) || (pieces.len() > 0 && pieces[0].len() > 0),
        continues(d.reasm, seq),
        times.len() == pieces.len(),
        stays_synced(longer(begun(d, seq), flat(pieces))),
    ensures
        fed_all(d, seq, pieces, times) == fed(d, seq, flat(pieces), now_us),
    decreases pieces.len(),
{
    if pieces.len() == 0 {
        lemma_fed_nothing(d, seq, flat(pieces), now_us);
    } else {
        let p = pieces[0];
        let rest = pieces.drop_first();
        let later = times.drop_first();
        let x = flat(rest);
        let next = add32(seq, p.len() as int);
        let (e, fs) = fed(d, seq, p, times[0]);
        if p.len() == 0 {
            lemma_fed_nothing(d, seq, p, times[0]);
            assert(next == seq);
            assert(flat(pieces) =~= x);
        } else {
            lemma_first_cut(d, seq, p, x, times[0], now_us);
        }
        law_cuts_do_not_matter(e, next, rest, later, now_us);
        assert(fed_all(e, next, rest, later) == fed(e, next, x, now_us));
        assert(fed(d, seq, flat(pieces), now_us).1 =~= fs + fed(e, next, x, now_us).1);
    }
}

/// The frames do not depend on how the stream was cut into segments: a direction
/// that has its stream from the first byte takes the same frames off it, and ends
/// in the same state, whether it comes in one segment or cut into any number of
/// them, if in the end it is not poisoned.
pub proof fn law_any_segmentation_gives_the_same_frames(
    keep_payloads: bool,
    expect_preface: bool,
    seq: u32,
    pieces: Seq<Seq<u8>>,
    times: Seq<u64>,
    now_us: u64,
)
    requires
        times.len() == pieces.len(),
        !fed(start_state(keep_payloads, expect_preface), seq, flat(pieces), now_us).0.poisoned,
    ensures
        fed_all(start_state(keep_payloads, expect_preface), seq, pieces, times) == fed(
            start_state(keep_payloads, expect_preface),
            seq,
            flat(pieces),
            now_us,
        ),
{
    let d = start_state(keep_payloads, expect_preface);
    let x = flat(pieces);
    if x.len() > 0 {
        lemma_fed_in_order(d, seq, x, now_us);
        lemma_parsed_keeps_seeking(longer(begun(d, seq), x));
        lemma_unpoisoned_stays_synced(longer(begun(d, seq), x));
    } else {
        lemma_longer_by_nothing(begun(d, seq), x);
        lemma_step_decreases(begun(d, seq));
    }
    law_cuts_do_not_matter(d, seq, pieces, times, now_us);
}

/// The same of a direction that joins mid-stream and is seeded from a snapshot, if
/// in the end it is neither poisoned nor misaligned.
pub proof fn law_seeded_stream_can_be_cut_anywhere(
    entries: Seq<FieldView>,
    max_size: usize,
    next_frame_seq: u32,
    seq: u32,
    pieces: Seq<Seq<u8>>,
    times: Seq<u64>,
    now_us: u64,
)
    requires
        times.len() == pieces.len() > 0,
        pieces[0].len() > 0,
        ({
            let e = seeded(midstream_state(true), entries, max_size, next_frame_seq);
            let last = fed(e, seq, flat(pieces), now_us).0;
            !last.poisoned && !last.snapshot_misaligned
        }),
    ensures
        ({
            let e = seeded(midstream_state(true), entries, max_size, next_frame_seq);
            fed_all(e, seq, pieces, times) == fed(e, seq, flat(pieces), now_us)
        }),
{
    let e = seeded(midstream_state(true), entries, max_size, next_frame_seq);
    lemma_fed_in_order(e, seq, flat(pieces), now_us);
    lemma_unpoisoned_stays_synced(longer(begun(e, seq), flat(pieces)));
    law_cuts_do_not_matter(e, seq, pieces, times, now_us);
}

} // verus!
