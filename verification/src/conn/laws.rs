//! Laws of the per-direction state machine: lost bytes are never papered over, a
//! snapshot resumes exactly where it was taken, and a decoded block tells the
//! truth about itself.
use vstd::prelude::*;

use crate::bytes::{add32, add64, seq_distance, sub64};
use crate::conn::framing::{
    begun, boundary_off, continues, lemma_boundary_stays, lemma_fed_in_order, lemma_fed_next,
    lemma_first_frame, longer, taken_in,
};
use crate::conn::{
    about_to_open, all_resolved, block_finished, boundary_seq, capped, carries_headers, fed, flag,
    frame_handled, gap_noted, keeps_payload, lemma_frame_handled_keeps, lemma_step_decreases,
    midstream_state, parse_step, parsed, promised_in, seeded, snapshottable, start_state, ticked,
    unparsed_seq, BlockKind, DecodedBlockView, DirectionView, ProcessedFrameView, StepView,
};
use crate::frame::{flags, fragment_of, header_at, FrameHeader, FrameType};
use crate::hpack::laws::{
    law_decoders_stay_sound, law_same_table_same_headers, lemma_limit_sticks, limits_agree,
    same_table, sound_decoder,
};
use crate::hpack::{block_decoded, claims_exact, forgotten, peer_capped, FieldView};
use crate::reassembly::{
    consumed, gapped, hole_expired, lemma_seq_follows_offset, pushed, ReassemblerView,
};

verus! {

/// What one step makes of parsing.
pub proof fn lemma_parsed_unfolds(d: DirectionView)
    ensures
        match parse_step(d).1 {
            StepView::Stop => parsed(d) == (parse_step(d).0, Seq::<ProcessedFrameView>::empty()),
            StepView::Moved => parsed(d) == parsed(parse_step(d).0),
            StepView::Frame(f) => parsed(d) == (
                parsed(parse_step(d).0).0,
                seq![f] + parsed(parse_step(d).0).1,
            ),
        },
{
    reveal(parsed);
    lemma_step_decreases(d);
}

// ---------------------------------------------------------------------------
// Lost bytes
// ---------------------------------------------------------------------------

pub proof fn lemma_step_keeps(d: DirectionView)
    ensures
        d.poisoned ==> parse_step(d).0.poisoned,
        d.snapshot_misaligned ==> parse_step(d).0.snapshot_misaligned,
{
    if d.reasm.avail.len() >= 9 {
        let hdr = header_at(d.reasm.avail);
        let taken = DirectionView {
            reasm: consumed(d.reasm, 9 + hdr.len),
            frames: add64(d.frames, 1),
            ..d
        };
        lemma_frame_handled_keeps(taken, hdr, d.reasm.avail.subrange(9, 9 + hdr.len));
    }
}

pub proof fn lemma_parsed_keeps(d: DirectionView)
    ensures
        d.poisoned ==> parsed(d).0.poisoned,
        d.snapshot_misaligned ==> parsed(d).0.snapshot_misaligned,
    decreases
            d.reasm.avail.len(),
            flag(d.pending_start_seq is Some),
            flag(d.desynced),
            flag(d.expect_preface),
{
    reveal(parsed);
    lemma_step_keeps(d);
    lemma_step_decreases(d);
    if parse_step(d).1 !is Stop {
        lemma_parsed_keeps(parse_step(d).0);
    }
}

/// Once a direction is poisoned, no traffic and no passage of time makes it
/// snapshottable again.
pub proof fn law_poison_is_permanent(d: DirectionView, seq: u32, data: Seq<u8>, now_us: u64)
    requires
        d.poisoned,
    ensures
        fed(d, seq, data, now_us).0.poisoned,
        ticked(d, now_us).0.poisoned,
        !snapshottable(fed(d, seq, data, now_us).0),
        !snapshottable(ticked(d, now_us).0),
{
    reveal(fed);
    reveal(ticked);
    reveal(parsed);
    let (reasm, gap) = pushed(d.reasm, seq, data, now_us);
    let received = DirectionView { reasm, ..d };
    lemma_parsed_keeps(received);
    lemma_parsed_keeps(gap_noted(received));
    lemma_parsed_keeps(gap_noted(DirectionView { reasm: gapped(d.reasm), ..d }));
}

/// A lost segment poisons the direction rather than letting it decode against a
/// stale table: the table is discarded, exactness is no longer claimed of it,
/// and the direction refuses to be snapshotted.
pub proof fn law_gap_poisons(d: DirectionView, seq: u32, data: Seq<u8>, now_us: u64)
    ensures
        gap_noted(d).dec.table.len() == 0,
        !claims_exact(gap_noted(d).dec),
        pushed(d.reasm, seq, data, now_us).1 ==> fed(d, seq, data, now_us).0.poisoned
            && !snapshottable(fed(d, seq, data, now_us).0),
        hole_expired(d.reasm, now_us) ==> ticked(d, now_us).0.poisoned && !snapshottable(
            ticked(d, now_us).0,
        ),
{
    reveal(fed);
    reveal(ticked);
    reveal(parsed);
    let (reasm, gap) = pushed(d.reasm, seq, data, now_us);
    lemma_parsed_keeps(gap_noted(DirectionView { reasm, ..d }));
    lemma_parsed_keeps(gap_noted(DirectionView { reasm: gapped(d.reasm), ..d }));
}

/// A header block that does not decode poisons the direction and discards its
/// table.
pub proof fn law_undecodable_block_poisons(d: DirectionView, hdr: FrameHeader)
    requires
        block_decoded(d.dec, d.block).1 is Err,
    ensures
        block_finished(d, hdr).1 is None,
        block_finished(d, hdr).0.poisoned,
        block_finished(d, hdr).0.dec.table.len() == 0,
        !claims_exact(block_finished(d, hdr).0.dec),
        block_finished(d, hdr).0.decode_errors == add64(d.decode_errors, 1),
{
}

// ---------------------------------------------------------------------------
// Seeding
// ---------------------------------------------------------------------------

pub proof fn lemma_unparsed_after(r: ReassemblerView, n: int)
    requires
        0 <= n <= r.avail.len(),
    ensures
        unparsed_seq(consumed(r, n)) == add32(unparsed_seq(r), n),
{
    lemma_seq_follows_offset(r.base_seq, r.buf_off, n);
}

pub proof fn lemma_distance_after(target: u32, here: u32, n: int)
    requires
        0 <= n <= seq_distance(target, here),
    ensures
        seq_distance(target, add32(here, n)) == seq_distance(target, here) - n,
{
}

/// The state of a seeded direction once it stands at the snapshot point,
/// `delta` bytes on.
pub open spec fn arrived(d: DirectionView, delta: int) -> DirectionView {
    DirectionView {
        reasm: consumed(d.reasm, delta),
        pending_start_seq: None,
        pre_snapshot_skipped: if delta == 0 {
            d.pre_snapshot_skipped
        } else {
            add64(d.pre_snapshot_skipped, delta)
        },
        ..d
    }
}

/// A seeded direction that has the bytes up to the snapshot point skips exactly
/// those, counts them, and frames from there.
pub proof fn law_seed_skips_to_the_boundary(d: DirectionView, target: u32)
    requires
        d.pending_start_seq == Some(target),
        d.discard == 0,
        0 <= seq_distance(target, unparsed_seq(d.reasm)) <= d.reasm.avail.len(),
    ensures
        parsed(d) == parsed(arrived(d, seq_distance(target, unparsed_seq(d.reasm)))),
{
    let delta = seq_distance(target, unparsed_seq(d.reasm));
    if delta > 0 {
        lemma_parsed_unfolds(d);
        let d1 = parse_step(d).0;
        lemma_unparsed_after(d.reasm, delta);
        lemma_distance_after(target, unparsed_seq(d.reasm), delta);
        assert(seq_distance(target, unparsed_seq(d1.reasm)) == 0);
        lemma_parsed_unfolds(d1);
        assert(parse_step(d1).0 == arrived(d, delta));
    } else {
        lemma_parsed_unfolds(d);
        assert(d.reasm.avail.skip(0) =~= d.reasm.avail);
        assert(consumed(d.reasm, 0) == d.reasm);
        assert(parse_step(d).0 == arrived(d, delta));
    }
}

/// A seeded direction whose first byte lies beyond the snapshot point notices:
/// the misalignment is reported and stays reported, and the table is not
/// applied.
pub proof fn law_late_capture_is_misaligned(d: DirectionView, target: u32)
    requires
        d.pending_start_seq == Some(target),
        d.discard == 0,
        seq_distance(target, unparsed_seq(d.reasm)) < 0,
    ensures
        parsed(d).0.snapshot_misaligned,
        parsed(d) == parsed(
            DirectionView {
                snapshot_misaligned: true,
                dec: forgotten(d.dec),
                desynced: true,
                pending_start_seq: None,
                ..d
            },
        ),
        forgotten(d.dec).table.len() == 0,
        !claims_exact(forgotten(d.dec)),
{
    reveal(parsed);
    lemma_step_decreases(d);
    lemma_parsed_keeps(parse_step(d).0);
}

/// Two frames that say the same: they may differ in where in the stream they
/// stand, and in whether their header block counts as trailers, which depends
/// on what was seen of the stream before.
pub open spec fn alike(f: ProcessedFrameView, g: ProcessedFrameView) -> bool {
    &&& f.hdr == g.hdr
    &&& f.payload == g.payload
    &&& f.is_header_frame == g.is_header_frame
    &&& f.truncated == g.truncated
    &&& f.settings_table_size == g.settings_table_size
    &&& match (f.decoded, g.decoded) {
        (None, None) => true,
        (Some(a), Some(b)) => a == (DecodedBlockView { kind: a.kind, ..b }),
        _ => false,
    }
}

/// Two frame lists that say the same.
pub open spec fn all_alike(fs: Seq<ProcessedFrameView>, gs: Seq<ProcessedFrameView>) -> bool {
    &&& fs.len() == gs.len()
    &&& forall|i: int| 0 <= i < fs.len() ==> alike(#[trigger] fs[i], gs[i])
}

/// Two directions that stand at the same point of the same stream with the same
/// table. Counters, offsets, and which streams are known to be open may differ.
pub open spec fn in_step(d: DirectionView, e: DirectionView) -> bool {
    &&& d.reasm.avail == e.reasm.avail
    &&& same_table(d.dec, e.dec)
    &&& d.desynced == e.desynced
    &&& d.keep_payloads == e.keep_payloads
    &&& d.expect_preface == e.expect_preface
    &&& d.discard == e.discard
    &&& d.pending_start_seq is None
    &&& e.pending_start_seq is None
    &&& d.block == e.block
    &&& d.block_hdr == e.block_hdr
    &&& d.block_promised == e.block_promised
}

#[verifier::rlimit(40)]
proof fn lemma_same_count(d0: u64, d1: u64, e0: u64, e1: u64)
    requires
        sub64(d1, e1) == sub64(d0, e0),
    ensures
        sub64(d1, d0) == sub64(e1, e0),
{
}

/// The limit on the table never changes, and a table that is not tracked is never
/// taken up again.
proof fn lemma_frame_limit(d: DirectionView, hdr: FrameHeader, payload: Seq<u8>)
    ensures
        ({
            let after = frame_handled(d, hdr, payload).0.dec;
            after.track_limit == d.dec.track_limit && (d.dec.over_limit ==> after.over_limit)
        }),
{
    reveal(frame_handled);
    if let Some(frag) = fragment_of(hdr, payload) {
        lemma_limit_sticks(about_to_open(d).dec, about_to_open(d).block + frag);
    }
    lemma_limit_sticks(d.dec, d.block + payload);
}

/// The same of a step.
pub proof fn lemma_step_limit(d: DirectionView)
    ensures
        ({
            let after = parse_step(d).0.dec;
            after.track_limit == d.dec.track_limit && (d.dec.over_limit ==> after.over_limit)
        }),
{
    if d.reasm.avail.len() >= 9 {
        let hdr = header_at(d.reasm.avail);
        let taken = DirectionView {
            reasm: consumed(d.reasm, 9 + hdr.len),
            frames: add64(d.frames, 1),
            ..d
        };
        lemma_frame_limit(taken, hdr, d.reasm.avail.subrange(9, 9 + hdr.len));
    }
}

/// The same of parsing.
pub proof fn lemma_parsed_limit(d: DirectionView)
    ensures
        ({
            let after = parsed(d).0.dec;
            after.track_limit == d.dec.track_limit && (d.dec.over_limit ==> after.over_limit)
        }),
    decreases
            d.reasm.avail.len(),
            flag(d.pending_start_seq is Some),
            flag(d.desynced),
            flag(d.expect_preface),
{
    reveal(parsed);
    lemma_step_limit(d);
    lemma_step_decreases(d);
    if parse_step(d).1 !is Stop {
        lemma_parsed_limit(parse_step(d).0);
    }
}

proof fn lemma_block_alike(d: DirectionView, e: DirectionView, hdr: FrameHeader)
    requires
        in_step(d, e),
        limits_agree(d.dec, e.dec, block_finished(d, hdr).0.dec),
    ensures
        in_step(block_finished(d, hdr).0, block_finished(e, hdr).0),
        match (block_finished(d, hdr).1, block_finished(e, hdr).1) {
            (None, None) => true,
            (Some(a), Some(b)) => a == (DecodedBlockView { kind: a.kind, ..b }),
            _ => false,
        },
{
    law_same_table_same_headers(d.dec, e.dec, d.block);
    lemma_same_count(
        d.dec.unresolved,
        block_decoded(d.dec, d.block).0.unresolved,
        e.dec.unresolved,
        block_decoded(e.dec, e.block).0.unresolved,
    );
}

proof fn lemma_frame_alike(
    d: DirectionView,
    e: DirectionView,
    hdr: FrameHeader,
    payload: Seq<u8>,
)
    requires
        in_step(d, e),
        limits_agree(d.dec, e.dec, frame_handled(d, hdr, payload).0.dec),
    ensures
        in_step(frame_handled(d, hdr, payload).0, frame_handled(e, hdr, payload).0),
        match (frame_handled(d, hdr, payload).1, frame_handled(e, hdr, payload).1) {
            (None, None) => true,
            (Some(a), Some(b)) => a == (DecodedBlockView { kind: a.kind, ..b }),
            _ => false,
        },
{
    reveal(frame_handled);
    if hdr.typ == FrameType::HEADERS || hdr.typ == FrameType::PUSH_PROMISE {
        if let Some(frag) = fragment_of(hdr, payload) {
            let promised = if hdr.typ == FrameType::PUSH_PROMISE {
                promised_in(hdr, payload)
            } else {
                None
            };
            let (a, b) = (about_to_open(d), about_to_open(e));
            let block = a.block + frag;
            assert(in_step(a, b));
            if hdr.flagged(flags::END_HEADERS) {
                lemma_block_alike(
                    DirectionView { block, block_hdr: Some(hdr), block_promised: promised, ..a },
                    DirectionView { block, block_hdr: Some(hdr), block_promised: promised, ..b },
                    hdr,
                );
            }
        }
    } else if hdr.typ == FrameType::CONTINUATION {
        if let Some(first) = d.block_hdr {
            if hdr.flagged(flags::END_HEADERS) {
                lemma_block_alike(
                    DirectionView { block: d.block + payload, ..d },
                    DirectionView { block: e.block + payload, ..e },
                    first,
                );
            }
        }
    }
}

pub proof fn lemma_step_alike(d: DirectionView, e: DirectionView)
    requires
        in_step(d, e),
        limits_agree(d.dec, e.dec, parse_step(d).0.dec),
    ensures
        in_step(parse_step(d).0, parse_step(e).0),
        match (parse_step(d).1, parse_step(e).1) {
            (StepView::Stop, StepView::Stop) => true,
            (StepView::Moved, StepView::Moved) => true,
            (StepView::Frame(f), StepView::Frame(g)) => alike(f, g),
            _ => false,
        },
{
    if d.discard == 0 && !d.desynced && !d.expect_preface && d.reasm.avail.len() >= 9 {
        let hdr = header_at(d.reasm.avail);
        if keeps_payload(d, hdr) && d.reasm.avail.len() >= 9 + hdr.len {
            let payload = d.reasm.avail.subrange(9, 9 + hdr.len);
            lemma_frame_alike(
                DirectionView {
                    reasm: consumed(d.reasm, 9 + hdr.len),
                    frames: add64(d.frames, 1),
                    ..d
                },
                DirectionView {
                    reasm: consumed(e.reasm, 9 + hdr.len),
                    frames: add64(e.frames, 1),
                    ..e
                },
                hdr,
                payload,
            );
        }
    }
}

/// Two directions in step take the same frames off the stream and stay in step,
/// at least until the first of them meets a limit that the second does not have.
pub proof fn law_directions_in_step_stay_in_step(d: DirectionView, e: DirectionView)
    requires
        in_step(d, e),
        limits_agree(d.dec, e.dec, parsed(d).0.dec),
    ensures
        in_step(parsed(d).0, parsed(e).0),
        all_alike(parsed(d).1, parsed(e).1),
    decreases
            d.reasm.avail.len(),
            flag(d.pending_start_seq is Some),
            flag(d.desynced),
            flag(d.expect_preface),
{
    reveal(parsed);
    lemma_step_decreases(d);
    lemma_step_decreases(e);
    lemma_step_limit(d);
    lemma_step_limit(e);
    lemma_parsed_limit(parse_step(d).0);
    lemma_step_alike(d, e);
    let (d1, out_d) = parse_step(d);
    let (e1, out_e) = parse_step(e);
    match (out_d, out_e) {
        (StepView::Moved, StepView::Moved) => {
            law_directions_in_step_stay_in_step(d1, e1);
        },
        (StepView::Frame(f), StepView::Frame(g)) => {
            law_directions_in_step_stay_in_step(d1, e1);
            let fs = seq![f] + parsed(d1).1;
            let gs = seq![g] + parsed(e1).1;
            assert forall|i: int| 0 <= i < fs.len() implies alike(#[trigger] fs[i], gs[i]) by {
                if i > 0 {
                    assert(fs[i] == parsed(d1).1[i - 1]);
                    assert(gs[i] == parsed(e1).1[i - 1]);
                }
            }
        },
        _ => {},
    }
}

/// What the discarding of a payload's rest comes to, once its bytes are there.
proof fn lemma_discarded(d: DirectionView)
    requires
        0 < d.discard <= d.reasm.avail.len(),
    ensures
        parsed(d) == parsed(
            DirectionView { reasm: consumed(d.reasm, d.discard as int), discard: 0, ..d },
        ),
{
    reveal(parsed);
    lemma_step_decreases(d);
}

/// The heart of the matter: a snapshot resumes exactly where it was taken. Let
/// `d` be a live direction that can be snapshotted, and let `e` be another one
/// that is seeded with its table, its capacity and its next frame boundary, and
/// then holds at least the bytes up to that boundary, followed by the same
/// bytes that the live one has from there on. Then both take the same frames off
/// the stream, with the same decoded header lists, and they stay in step ever
/// after, unless the live one's table outgrows a limit that the other does not
/// have.
#[verifier::rlimit(40)]
pub proof fn law_snapshot_resumes_in_step(d: DirectionView, e0: DirectionView)
    requires
        snapshottable(d),
        d.dec.exact ==> d.dec.capacity_observed,
        d.dec.max_size <= d.dec.track_limit,
        d.pending_start_seq is None,
        d.block.len() == 0,
        d.block_promised is None,
        e0.keep_payloads == d.keep_payloads,
        d.dec.track_limit <= e0.table_track_limit,
        d.dec.track_limit == e0.table_track_limit || !parsed(d).0.dec.over_limit,
        d.discard <= d.reasm.avail.len(),
        ({
            let skipped = seq_distance(boundary_seq(d), unparsed_seq(e0.reasm));
            &&& 0 <= skipped <= e0.reasm.avail.len()
            &&& e0.reasm.avail.skip(skipped) == d.reasm.avail.skip(d.discard as int)
        }),
    ensures
        ({
            let e = seeded(e0, d.dec.table, d.dec.max_size, boundary_seq(d));
            &&& in_step(parsed(d).0, parsed(e).0)
            &&& all_alike(parsed(d).1, parsed(e).1)
        }),
{
    let skipped = seq_distance(boundary_seq(d), unparsed_seq(e0.reasm));
    let e = seeded(e0, d.dec.table, d.dec.max_size, boundary_seq(d));
    law_seed_skips_to_the_boundary(e, boundary_seq(d));
    let e1 = arrived(e, skipped);
    let d1 = DirectionView { reasm: consumed(d.reasm, d.discard as int), discard: 0, ..d };
    if d.discard > 0 {
        lemma_discarded(d);
    } else {
        assert(d.reasm.avail.skip(0) =~= d.reasm.avail);
        assert(d1 =~= d);
    }
    assert(e1.block =~= d1.block);
    assert(in_step(d1, e1));
    law_directions_in_step_stay_in_step(d1, e1);
}

/// What a direction that is not seeking remembers of its seeking.
pub proof fn lemma_parsed_keeps_seeking(d: DirectionView)
    requires
        d.pending_start_seq is None,
    ensures
        parsed(d).0.pending_start_seq is None,
        parsed(d).0.snapshot_misaligned == d.snapshot_misaligned,
        parsed(d).0.pre_snapshot_skipped == d.pre_snapshot_skipped,
    decreases
            d.reasm.avail.len(),
            flag(d.pending_start_seq is Some),
            flag(d.desynced),
            flag(d.expect_preface),
{
    reveal(parsed);
    lemma_step_decreases(d);
    if d.reasm.avail.len() >= 9 {
        let hdr = header_at(d.reasm.avail);
        let payload = d.reasm.avail.subrange(9, 9 + hdr.len);
        let taken = DirectionView {
            reasm: consumed(d.reasm, 9 + hdr.len),
            frames: add64(d.frames, 1),
            ..d
        };
        lemma_frame_handled_keeps(taken, hdr, payload);
        assert(frame_handled(taken, hdr, payload).0.pre_snapshot_skipped
            == d.pre_snapshot_skipped) by {
            reveal(frame_handled);
        }
    }
    if parse_step(d).1 !is Stop {
        lemma_parsed_keeps_seeking(parse_step(d).0);
    }
}

/// The bytes that a direction has from its next frame boundary on.
pub open spec fn from_boundary(d: DirectionView) -> Seq<u8> {
    d.reasm.avail.skip(d.discard as int)
}

/// What a direction does that joins mid-stream and is seeded, once it has bytes up
/// to the boundary and beyond.
pub proof fn lemma_seeded_reader(
    table: Seq<FieldView>,
    max_size: usize,
    n: u32,
    before: Seq<u8>,
    y: Seq<u8>,
    now_us: u64,
)
    requires
        before.len() < 0x8000_0000,
        before.len() + y.len() > 0,
    ensures
        ({
            let q = add32(n, -before.len());
            let e = seeded(midstream_state(true), table, max_size, n);
            let e0 = longer(begun(midstream_state(true), q), before + y);
            let (e2, gs) = fed(e, q, before + y, now_us);
            &&& (e2, gs) == parsed(seeded(e0, table, max_size, n))
            &&& seq_distance(n, unparsed_seq(e0.reasm)) == before.len()
            &&& e0.reasm.avail == before + y
            &&& e0.reasm.avail.skip(before.len() as int) == y
            &&& !e2.snapshot_misaligned
            &&& e2.pre_snapshot_skipped == before.len()
            &&& gs.len() > 0 ==> gs[0].start_seq == n && gs[0].start_off == before.len()
        }),
{
    let k = before.len() as int;
    let q = add32(n, -k);
    let e = seeded(midstream_state(true), table, max_size, n);
    let e0 = longer(begun(midstream_state(true), q), before + y);
    let e1 = seeded(e0, table, max_size, n);
    lemma_fed_in_order(e, q, before + y, now_us);
    assert(e1 == longer(begun(e, q), before + y));
    assert(e0.reasm.avail =~= before + y);
    assert(unparsed_seq(e0.reasm) == q);
    assert(seq_distance(n, q) == k);
    assert(e0.reasm.avail.skip(k) =~= y);
    law_seed_skips_to_the_boundary(e1, n);
    let a = arrived(e1, k);
    lemma_parsed_keeps_seeking(a);
    lemma_first_frame(a);
    lemma_seq_follows_offset(q, 0, k);
    assert(boundary_off(a) == k);
    assert(boundary_seq(a) == n);
}

/// A snapshot of any direction that keeps payloads and can be snapshotted
/// resumes. Let the direction go on with a segment that reveals no loss. Then one
/// that joins mid-stream, is seeded with its table, its capacity and its next
/// frame boundary `n`, and sees `before`, the bytes ahead of that boundary, and the
/// bytes from there on, takes the frames that the first one takes, with the same
/// header lists. It is not misaligned, it counts exactly the bytes of `before` as
/// skipped, none of them is part of a frame, and the two are in step.
pub proof fn law_snapshot_resumes_midstream(
    d: DirectionView,
    seq: u32,
    data: Seq<u8>,
    now_d: u64,
    before: Seq<u8>,
    now_e: u64,
)
    requires
        sound(d),
        snapshottable(d),
        d.keep_payloads,
        d.table_track_limit == usize::MAX,
        d.pending_start_seq is None,
        d.reasm.initialized,
        !pushed(d.reasm, seq, data, now_d).1,
        before.len() < 0x8000_0000,
        ({
            let l = taken_in(d, seq, data, now_d);
            &&& l.discard <= l.reasm.avail.len()
            &&& before.len() + from_boundary(l).len() > 0
        }),
    ensures
        ({
            let n = boundary_seq(d);
            let e = seeded(midstream_state(true), d.dec.table, d.dec.max_size, n);
            let (d2, fs) = fed(d, seq, data, now_d);
            let (e2, gs) = fed(
                e,
                add32(n, -before.len()),
                before + from_boundary(taken_in(d, seq, data, now_d)),
                now_e,
            );
            &&& all_alike(fs, gs)
            &&& in_step(d2, e2)
            &&& !e2.snapshot_misaligned
            &&& e2.pre_snapshot_skipped == before.len()
            &&& gs.len() > 0 ==> gs[0].start_seq == n && gs[0].start_off == before.len()
        }),
{
    reveal(fed);
    reveal(parsed);
    let n = boundary_seq(d);
    let l = taken_in(d, seq, data, now_d);
    let y = from_boundary(l);
    let e0 = longer(begun(midstream_state(true), add32(n, -before.len())), before + y);
    lemma_boundary_stays(d, seq, data, now_d);
    lemma_seeded_reader(d.dec.table, d.dec.max_size, n, before, y, now_e);
    law_snapshot_resumes_in_step(l, e0);
}

/// Two directions that are in step stay so as the stream goes on, and take the
/// same frames off it.
pub proof fn law_in_step_as_the_stream_goes_on(
    d: DirectionView,
    e: DirectionView,
    x: Seq<u8>,
    now_d: u64,
    now_e: u64,
)
    requires
        in_step(d, e),
        d.dec.track_limit == e.dec.track_limit,
        d.reasm.initialized,
        e.reasm.initialized,
        continues(d.reasm, d.reasm.next_seq),
        continues(e.reasm, e.reasm.next_seq),
    ensures
        ({
            let (d2, fs) = fed(d, d.reasm.next_seq, x, now_d);
            let (e2, gs) = fed(e, e.reasm.next_seq, x, now_e);
            in_step(d2, e2) && all_alike(fs, gs)
        }),
{
    lemma_fed_next(d, d.reasm.next_seq, x, now_d);
    lemma_fed_next(e, e.reasm.next_seq, x, now_e);
    law_directions_in_step_stay_in_step(longer(d, x), longer(e, x));
}

// ---------------------------------------------------------------------------
// Keeping payloads
// ---------------------------------------------------------------------------

/// Whether a frame matters to header decoding: it carries header fragments or
/// settings.
pub open spec fn matters(f: ProcessedFrameView) -> bool {
    carries_headers(f.hdr.typ) || f.hdr.typ == FrameType::SETTINGS
}

/// The frames of a list that matter to header decoding.
pub open spec fn that_matter(fs: Seq<ProcessedFrameView>) -> Seq<ProcessedFrameView>
    decreases fs.len(),
{
    if fs.len() == 0 {
        Seq::empty()
    } else if matters(fs[0]) {
        seq![fs[0]] + that_matter(fs.skip(1))
    } else {
        that_matter(fs.skip(1))
    }
}

/// Two directions with the same table at the same point, of which the first
/// drops payloads that do not matter and the second keeps them.
spec fn same_headers(d: DirectionView, e: DirectionView) -> bool {
    &&& !d.keep_payloads
    &&& e.keep_payloads
    &&& same_table(d.dec, e.dec)
    &&& d.desynced == e.desynced
    &&& d.expect_preface == e.expect_preface
    &&& d.pending_start_seq is None
    &&& e.pending_start_seq is None
    &&& d.block == e.block
    &&& d.block_hdr == e.block_hdr
    &&& d.block_promised == e.block_promised
}

/// Whether the limits of two directions make no difference while the first of
/// them is parsed.
pub open spec fn within_limits(d: DirectionView, e: DirectionView) -> bool {
    limits_agree(d.dec, e.dec, parsed(d).0.dec)
}

/// The same bytes lie before both.
spec fn level(d: DirectionView, e: DirectionView) -> bool {
    same_headers(d, e) && d.reasm.avail == e.reasm.avail && d.discard == e.discard
}

/// The second holds back an incomplete frame of `got` payload bytes before the
/// ones that lie before the first, which is dropping that payload.
spec fn lagging(d: DirectionView, e: DirectionView, got: int) -> bool {
    let h = header_at(e.reasm.avail);
    &&& same_headers(d, e)
    &&& !d.desynced
    &&& !d.expect_preface
    &&& e.discard == 0
    &&& e.reasm.avail.len() >= 9
    &&& !carries_headers(h.typ)
    &&& h.typ != FrameType::SETTINGS
    &&& keeps_payload(e, h)
    &&& 0 <= got < h.len
    &&& d.discard == h.len - got
    &&& e.reasm.avail.len() >= 9 + got
    &&& e.reasm.avail.skip(9 + got) == d.reasm.avail
}

/// One of the two.
pub closed spec fn together(d: DirectionView, e: DirectionView) -> bool {
    level(d, e) || exists|got: int| #[trigger] lagging(d, e, got)
}

proof fn lemma_that_matter_front(f: ProcessedFrameView, fs: Seq<ProcessedFrameView>)
    ensures
        that_matter(seq![f] + fs) == (if matters(f) {
            seq![f] + that_matter(fs)
        } else {
            that_matter(fs)
        }),
{
    let all = seq![f] + fs;
    assert(all.skip(1) =~= fs);
    assert(all[0] == f);
}

proof fn lemma_all_alike_front(
    f: ProcessedFrameView,
    g: ProcessedFrameView,
    fs: Seq<ProcessedFrameView>,
    gs: Seq<ProcessedFrameView>,
)
    requires
        alike(f, g),
        all_alike(fs, gs),
    ensures
        all_alike(seq![f] + fs, seq![g] + gs),
{
    let a = seq![f] + fs;
    let b = seq![g] + gs;
    assert forall|i: int| 0 <= i < a.len() implies alike(#[trigger] a[i], b[i]) by {
        if i > 0 {
            assert(a[i] == fs[i - 1]);
            assert(b[i] == gs[i - 1]);
        }
    }
}

proof fn lemma_plain_frame_handled(d: DirectionView, hdr: FrameHeader, payload: Seq<u8>)
    requires
        !carries_headers(hdr.typ),
    ensures
        frame_handled(d, hdr, payload) == (d, None::<DecodedBlockView>),
{
    reveal(frame_handled);
}

proof fn lemma_level_frame(
    d: DirectionView,
    e: DirectionView,
    hdr: FrameHeader,
    payload: Seq<u8>,
)
    requires
        level(d, e),
        limits_agree(d.dec, e.dec, frame_handled(d, hdr, payload).0.dec),
    ensures
        level(frame_handled(d, hdr, payload).0, frame_handled(e, hdr, payload).0),
        match (frame_handled(d, hdr, payload).1, frame_handled(e, hdr, payload).1) {
            (None, None) => true,
            (Some(a), Some(b)) => a == (DecodedBlockView { kind: a.kind, ..b }),
            _ => false,
        },
{
    let k = DirectionView { keep_payloads: true, ..d };
    assert(in_step(k, e));
    lemma_keeping_is_kept(d, hdr, payload);
    lemma_frame_alike(k, e, hdr, payload);
    lemma_frame_handled_keeps(d, hdr, payload);
    lemma_frame_handled_keeps(e, hdr, payload);
}

/// Whether payloads are kept does not change what a frame does.
proof fn lemma_keeping_is_kept(d: DirectionView, hdr: FrameHeader, payload: Seq<u8>)
    ensures
        frame_handled(DirectionView { keep_payloads: true, ..d }, hdr, payload) == (
            DirectionView { keep_payloads: true, ..frame_handled(d, hdr, payload).0 },
            frame_handled(d, hdr, payload).1,
        ),
{
    reveal(frame_handled);
}

/// A step from a level position that both directions take alike.
proof fn lemma_level_step(d: DirectionView, e: DirectionView)
    requires
        level(d, e),
        limits_agree(d.dec, e.dec, parse_step(d).0.dec),
        d.discard == 0 && !d.desynced && !d.expect_preface && d.reasm.avail.len() >= 9
            ==> keeps_payload(d, header_at(d.reasm.avail)) == keeps_payload(
            e,
            header_at(e.reasm.avail),
        ),
    ensures
        level(parse_step(d).0, parse_step(e).0),
        match (parse_step(d).1, parse_step(e).1) {
            (StepView::Stop, StepView::Stop) => true,
            (StepView::Moved, StepView::Moved) => true,
            (StepView::Frame(f), StepView::Frame(g)) => alike(f, g),
            _ => false,
        },
{
    if d.discard == 0 && !d.desynced && !d.expect_preface && d.reasm.avail.len() >= 9 {
        let hdr = header_at(d.reasm.avail);
        if keeps_payload(d, hdr) && d.reasm.avail.len() >= 9 + hdr.len {
            let payload = d.reasm.avail.subrange(9, 9 + hdr.len);
            lemma_level_frame(
                DirectionView {
                    reasm: consumed(d.reasm, 9 + hdr.len),
                    frames: add64(d.frames, 1),
                    ..d
                },
                DirectionView {
                    reasm: consumed(e.reasm, 9 + hdr.len),
                    frames: add64(e.frames, 1),
                    ..e
                },
                hdr,
                payload,
            );
        }
    }
}

/// From a level position.
proof fn lemma_level_goes_on(d: DirectionView, e: DirectionView)
    requires
        level(d, e),
        within_limits(d, e),
    ensures
        together(parsed(d).0, parsed(e).0),
        all_alike(that_matter(parsed(d).1), that_matter(parsed(e).1)),
    decreases
            e.reasm.avail.len(),
            flag(e.pending_start_seq is Some),
            flag(e.desynced),
            flag(e.expect_preface),
{
    let a = d.reasm.avail;
    let hdr = header_at(a);
    let none = Seq::<ProcessedFrameView>::empty();
    assert(that_matter(none) =~= none);
    lemma_parsed_unfolds(d);
    lemma_parsed_unfolds(e);
    lemma_step_decreases(e);
    if d.discard == 0 && !d.desynced && !d.expect_preface && a.len() >= 9 && keeps_payload(d, hdr)
        != keeps_payload(e, hdr) {
        // A payload that one drops and the other keeps.
        let d1 = parse_step(d).0;
        let f = parse_step(d).1->Frame_0;
        lemma_that_matter_front(f, parsed(d1).1);
        lemma_parsed_unfolds(d1);
        if a.len() < 9 + hdr.len {
            assert(parse_step(e) == (e, StepView::Stop));
            assert(a.skip(9) == d1.reasm.avail);
            if d1.reasm.avail.len() == 0 {
                assert(parse_step(d1) == (d1, StepView::Stop));
                assert(lagging(d1, e, 0));
            } else {
                let d2 = parse_step(d1).0;
                let got = a.len() - 9;
                lemma_parsed_unfolds(d2);
                assert(d2.reasm.avail =~= Seq::<u8>::empty());
                assert(parse_step(d2) == (d2, StepView::Stop));
                assert(e.reasm.avail.skip(9 + got) =~= d2.reasm.avail);
                assert(lagging(d2, e, got));
            }
        } else {
            let e1 = parse_step(e).0;
            let g = parse_step(e).1->Frame_0;
            let taken = DirectionView {
                reasm: consumed(e.reasm, 9 + hdr.len),
                frames: add64(e.frames, 1),
                ..e
            };
            lemma_plain_frame_handled(taken, hdr, a.subrange(9, 9 + hdr.len));
            assert(e1 == taken);
            lemma_that_matter_front(g, parsed(e1).1);
            if hdr.len > 0 {
                let d2 = parse_step(d1).0;
                assert(a.skip(9).skip(hdr.len as int) =~= a.skip(9 + hdr.len));
                assert(level(d2, e1));
                lemma_level_goes_on(d2, e1);
            } else {
                assert(level(d1, e1));
                lemma_level_goes_on(d1, e1);
            }
        }
    } else {
        lemma_step_limit(d);
        lemma_step_limit(e);
        lemma_parsed_limit(parse_step(d).0);
        lemma_level_step(d, e);
        let d1 = parse_step(d).0;
        let e1 = parse_step(e).0;
        match (parse_step(d).1, parse_step(e).1) {
            (StepView::Moved, StepView::Moved) => {
                lemma_level_goes_on(d1, e1);
            },
            (StepView::Frame(f), StepView::Frame(g)) => {
                lemma_level_goes_on(d1, e1);
                lemma_that_matter_front(f, parsed(d1).1);
                lemma_that_matter_front(g, parsed(e1).1);
                lemma_all_alike_front(
                    f,
                    g,
                    that_matter(parsed(d1).1),
                    that_matter(parsed(e1).1),
                );
            },
            _ => {},
        }
    }
}

/// Whether payloads are kept does not matter to headers: a direction that drops
/// the payloads of DATA and the like and one that keeps them take the same
/// header frames and settings off the same stream, with the same decoded header
/// lists, and go on doing so.
pub proof fn law_dropping_payloads_does_not_matter(d: DirectionView, e: DirectionView)
    requires
        together(d, e),
        within_limits(d, e),
    ensures
        together(parsed(d).0, parsed(e).0),
        all_alike(that_matter(parsed(d).1), that_matter(parsed(e).1)),
{
    let none = Seq::<ProcessedFrameView>::empty();
    assert(that_matter(none) =~= none);
    if level(d, e) {
        lemma_level_goes_on(d, e);
    } else {
        let got = choose|got: int| #[trigger] lagging(d, e, got);
        let a = e.reasm.avail;
        let y = d.reasm.avail;
        let hdr = header_at(a);
        lemma_parsed_unfolds(d);
        lemma_parsed_unfolds(e);
        lemma_step_decreases(e);
        if a.len() < 9 + hdr.len {
            assert(parse_step(e) == (e, StepView::Stop));
            if y.len() == 0 {
                assert(parse_step(d) == (d, StepView::Stop));
            } else {
                let d1 = parse_step(d).0;
                lemma_parsed_unfolds(d1);
                assert(d1.reasm.avail =~= Seq::<u8>::empty());
                assert(parse_step(d1) == (d1, StepView::Stop));
                assert(a.skip(9 + got + y.len()) =~= d1.reasm.avail);
                assert(lagging(d1, e, got + y.len()));
            }
        } else {
            let e1 = parse_step(e).0;
            let g = parse_step(e).1->Frame_0;
            let taken = DirectionView {
                reasm: consumed(e.reasm, 9 + hdr.len),
                frames: add64(e.frames, 1),
                ..e
            };
            lemma_plain_frame_handled(taken, hdr, a.subrange(9, 9 + hdr.len));
            lemma_that_matter_front(g, parsed(e1).1);
            let d1 = parse_step(d).0;
            assert(y.skip(hdr.len - got) =~= a.skip(9 + hdr.len));
            assert(level(d1, e1));
            lemma_level_goes_on(d1, e1);
        }
    }
}

/// More of the stream keeps the two together.
pub proof fn law_more_bytes_keep_together(d: DirectionView, e: DirectionView, x: Seq<u8>)
    requires
        together(d, e),
    ensures
        together(longer(d, x), longer(e, x)),
{
    if level(d, e) {
        assert(level(longer(d, x), longer(e, x)));
    } else {
        let got = choose|got: int| #[trigger] lagging(d, e, got);
        let a = e.reasm.avail;
        assert(header_at(a + x) == header_at(a));
        assert((a + x).skip(9 + got) =~= a.skip(9 + got) + x);
        assert(lagging(longer(d, x), longer(e, x), got));
    }
}

/// The snapshot of a live direction, which drops payloads, resumes in a
/// direction that keeps them: seeded with the live one's table, capacity and
/// next frame boundary, and given at least the bytes up to that boundary and
/// then the same bytes as the live one, it takes the same header frames off the
/// stream, with the same decoded header lists, and stays together with the live
/// one ever after, unless the live one's table outgrows a limit that the other
/// does not have.
#[verifier::rlimit(40)]
pub proof fn law_snapshot_resumes(d: DirectionView, e0: DirectionView)
    requires
        snapshottable(d),
        d.dec.exact ==> d.dec.capacity_observed,
        d.dec.max_size <= d.dec.track_limit,
        d.pending_start_seq is None,
        d.block.len() == 0,
        d.block_promised is None,
        !d.keep_payloads,
        e0.keep_payloads,
        d.dec.track_limit <= e0.table_track_limit,
        d.dec.track_limit == e0.table_track_limit || !parsed(d).0.dec.over_limit,
        d.discard <= d.reasm.avail.len(),
        ({
            let skipped = seq_distance(boundary_seq(d), unparsed_seq(e0.reasm));
            &&& 0 <= skipped <= e0.reasm.avail.len()
            &&& e0.reasm.avail.skip(skipped) == d.reasm.avail.skip(d.discard as int)
        }),
    ensures
        ({
            let e = seeded(e0, d.dec.table, d.dec.max_size, boundary_seq(d));
            &&& together(parsed(d).0, parsed(e).0)
            &&& all_alike(that_matter(parsed(d).1), that_matter(parsed(e).1))
        }),
{
    let skipped = seq_distance(boundary_seq(d), unparsed_seq(e0.reasm));
    let e = seeded(e0, d.dec.table, d.dec.max_size, boundary_seq(d));
    law_seed_skips_to_the_boundary(e, boundary_seq(d));
    let e1 = arrived(e, skipped);
    let d1 = DirectionView { reasm: consumed(d.reasm, d.discard as int), discard: 0, ..d };
    if d.discard > 0 {
        lemma_discarded(d);
    } else {
        assert(d.reasm.avail.skip(0) =~= d.reasm.avail);
        assert(d1 =~= d);
    }
    assert(e1.block =~= d1.block);
    assert(level(d1, e1));
    law_dropping_payloads_does_not_matter(d1, e1);
}

// ---------------------------------------------------------------------------
// Invariants
// ---------------------------------------------------------------------------

/// Whether the open header block is in order: nothing of one is left where none is
/// open, and it has a promised stream exactly where a PUSH_PROMISE opened it.
pub open spec fn block_in_order(d: DirectionView) -> bool {
    &&& d.block_hdr is None ==> d.block.len() == 0 && d.block_promised is None
    &&& d.block_hdr matches Some(h) ==> (h.typ == FrameType::PUSH_PROMISE
        <==> d.block_promised is Some)
    &&& d.block_promised matches Some(p) ==> p < 0x8000_0000
}

/// What every direction satisfies: its decoder is sound and limited as the
/// direction says, and its open header block is in order.
pub open spec fn sound(d: DirectionView) -> bool {
    &&& sound_decoder(d.dec)
    &&& d.dec.track_limit == d.table_track_limit
    &&& block_in_order(d)
}

/// A direction that is being watched live: sound, dropping payloads that do not
/// matter, and never seeded.
pub open spec fn live(d: DirectionView) -> bool {
    sound(d) && !d.keep_payloads && d.pending_start_seq is None
}

proof fn lemma_finished_sound(d: DirectionView, hdr: FrameHeader)
    requires
        sound_decoder(d.dec),
        d.dec.track_limit == d.table_track_limit,
    ensures
        sound(block_finished(d, hdr).0),
{
    law_decoders_stay_sound(d.dec, d.block, 0);
}

proof fn lemma_frame_sound(d: DirectionView, hdr: FrameHeader, payload: Seq<u8>)
    requires
        sound(d),
    ensures
        sound(frame_handled(d, hdr, payload).0),
{
    reveal(frame_handled);
    if hdr.typ == FrameType::HEADERS || hdr.typ == FrameType::PUSH_PROMISE {
        if let Some(frag) = fragment_of(hdr, payload) {
            let promised = if hdr.typ == FrameType::PUSH_PROMISE {
                promised_in(hdr, payload)
            } else {
                None
            };
            let a = about_to_open(d);
            let block = a.block + frag;
            lemma_finished_sound(
                DirectionView { block, block_hdr: Some(hdr), block_promised: promised, ..a },
                hdr,
            );
        }
    } else if hdr.typ == FrameType::CONTINUATION {
        if let Some(first) = d.block_hdr {
            lemma_finished_sound(DirectionView { block: d.block + payload, ..d }, first);
        }
    }
}

proof fn lemma_step_sound(d: DirectionView)
    requires
        sound(d),
    ensures
        sound(parse_step(d).0),
        live(d) ==> live(parse_step(d).0),
{
    if d.reasm.avail.len() >= 9 {
        let hdr = header_at(d.reasm.avail);
        let taken = DirectionView {
            reasm: consumed(d.reasm, 9 + hdr.len),
            frames: add64(d.frames, 1),
            ..d
        };
        let payload = d.reasm.avail.subrange(9, 9 + hdr.len);
        lemma_frame_handled_keeps(taken, hdr, payload);
        lemma_frame_sound(taken, hdr, payload);
    }
}

proof fn lemma_parsed_sound(d: DirectionView)
    requires
        sound(d),
    ensures
        sound(parsed(d).0),
        live(d) ==> live(parsed(d).0),
    decreases
            d.reasm.avail.len(),
            flag(d.pending_start_seq is Some),
            flag(d.desynced),
            flag(d.expect_preface),
{
    lemma_parsed_unfolds(d);
    lemma_step_sound(d);
    lemma_step_decreases(d);
    if parse_step(d).1 !is Stop {
        lemma_parsed_sound(parse_step(d).0);
    }
}

/// Every direction starts sound, and neither traffic nor the passage of time
/// nor a capacity signalled from the other side changes that.
pub proof fn law_directions_stay_sound(
    d: DirectionView,
    seq: u32,
    data: Seq<u8>,
    now_us: u64,
    n: usize,
)
    requires
        sound(d),
    ensures
        sound(fed(d, seq, data, now_us).0),
        sound(ticked(d, now_us).0),
        sound(DirectionView { dec: peer_capped(d.dec, n), ..d }),
        live(d) ==> live(fed(d, seq, data, now_us).0) && live(ticked(d, now_us).0),
{
    reveal(fed);
    reveal(ticked);
    reveal(parsed);
    let (reasm, gap) = pushed(d.reasm, seq, data, now_us);
    let received = DirectionView { reasm, ..d };
    let late = DirectionView { reasm: gapped(d.reasm), ..d };
    law_decoders_stay_sound(d.dec, Seq::empty(), n);
    lemma_parsed_sound(received);
    lemma_parsed_sound(gap_noted(received));
    lemma_parsed_sound(gap_noted(late));
}

/// The states that directions start in are sound, with any cap on the table.
pub proof fn law_directions_start_sound(keep: bool, preface: bool, limit: usize)
    ensures
        sound(capped(midstream_state(keep), limit)),
        sound(capped(start_state(keep, preface), limit)),
        sound(midstream_state(keep)),
        sound(start_state(keep, preface)),
{
}

// ---------------------------------------------------------------------------
// Decoded blocks
// ---------------------------------------------------------------------------

/// What a decoded block says of itself: it has a promised stream exactly where it
/// is a push promise, with the reserved bit clear, and where it calls itself
/// exact it has no gaps at all.
pub open spec fn truthful(b: DecodedBlockView) -> bool {
    &&& b.promised_stream_id is Some <==> b.kind == BlockKind::PushPromise
    &&& b.promised_stream_id matches Some(p) ==> p < 0x8000_0000
    &&& b.exact ==> b.unresolved == 0 && all_resolved(b.fields)
}

/// The same of every block that a list of frames completes.
pub open spec fn all_truthful(fs: Seq<ProcessedFrameView>) -> bool {
    forall|i: int| 0 <= i < fs.len() ==> ((#[trigger] fs[i]).decoded matches Some(b) ==> truthful(b))
}

/// A header block that is completed and decoded tells the truth about itself: it
/// calls itself exact only if it has no gaps at all and the table is then known in
/// full, and it has a promised stream, with the reserved bit clear, exactly where a
/// PUSH_PROMISE opened it.
pub proof fn law_finished_block_is_truthful(d: DirectionView, hdr: FrameHeader)
    requires
        block_in_order(d),
        d.block_hdr == Some(hdr),
    ensures
        block_finished(d, hdr).1 matches Some(b) ==> {
            &&& truthful(b)
            &&& b.exact ==> claims_exact(block_finished(d, hdr).0.dec)
            &&& b.kind == BlockKind::PushPromise <==> hdr.typ == FrameType::PUSH_PROMISE
        },
        block_in_order(block_finished(d, hdr).0),
{
}

proof fn lemma_frame_truthful(d: DirectionView, hdr: FrameHeader, payload: Seq<u8>)
    requires
        block_in_order(d),
    ensures
        block_in_order(frame_handled(d, hdr, payload).0),
        frame_handled(d, hdr, payload).1 matches Some(b) ==> truthful(b),
{
    reveal(frame_handled);
}

proof fn lemma_step_truthful(d: DirectionView)
    requires
        block_in_order(d),
    ensures
        block_in_order(parse_step(d).0),
        parse_step(d).1 matches StepView::Frame(f) ==> (f.decoded matches Some(b) ==> truthful(b)),
        parse_step(d).1 matches StepView::Frame(f) ==> f.truncated && f.is_header_frame
            ==> parse_step(d).0.poisoned,
{
    if d.reasm.avail.len() >= 9 {
        let hdr = header_at(d.reasm.avail);
        let taken = DirectionView {
            reasm: consumed(d.reasm, 9 + hdr.len),
            frames: add64(d.frames, 1),
            ..d
        };
        lemma_frame_truthful(taken, hdr, d.reasm.avail.subrange(9, 9 + hdr.len));
    }
}

proof fn lemma_parsed_truthful(d: DirectionView)
    requires
        block_in_order(d),
    ensures
        block_in_order(parsed(d).0),
        all_truthful(parsed(d).1),
        forall|i: int|
            0 <= i < parsed(d).1.len() && (#[trigger] parsed(d).1[i]).truncated
                && parsed(d).1[i].is_header_frame ==> parsed(d).0.poisoned,
    decreases
            d.reasm.avail.len(),
            flag(d.pending_start_seq is Some),
            flag(d.desynced),
            flag(d.expect_preface),
{
    lemma_parsed_unfolds(d);
    lemma_step_truthful(d);
    lemma_step_decreases(d);
    if parse_step(d).1 !is Stop {
        let d1 = parse_step(d).0;
        lemma_parsed_truthful(d1);
        lemma_parsed_keeps(d1);
        if let StepView::Frame(f) = parse_step(d).1 {
            let fs = parsed(d).1;
            assert forall|i: int| 0 <= i < fs.len() implies ((#[trigger] fs[i]).decoded matches Some(
                b,
            ) ==> truthful(b)) && (fs[i].truncated && fs[i].is_header_frame
                ==> parsed(d).0.poisoned) by {
                if i > 0 {
                    assert(fs[i] == parsed(d1).1[i - 1]);
                } else {
                    assert(fs[i] == f);
                }
            }
        }
    }
}

/// Every block that a direction decodes, joined mid-stream or not, tells the
/// truth about itself.
pub proof fn law_blocks_are_truthful(d: DirectionView, seq: u32, data: Seq<u8>, now_us: u64)
    requires
        block_in_order(d),
    ensures
        block_in_order(fed(d, seq, data, now_us).0),
        block_in_order(ticked(d, now_us).0),
        all_truthful(fed(d, seq, data, now_us).1),
        all_truthful(ticked(d, now_us).1),
{
    reveal(fed);
    reveal(ticked);
    reveal(parsed);
    let (reasm, gap) = pushed(d.reasm, seq, data, now_us);
    let received = DirectionView { reasm, ..d };
    lemma_parsed_truthful(received);
    lemma_parsed_truthful(gap_noted(received));
    lemma_parsed_truthful(
        gap_noted(DirectionView { reasm: gapped(d.reasm), ..d }),
    );
}

/// A header block that is abandoned for another one takes what the table holds
/// with it: the direction is poisoned and refuses to be snapshotted.
pub proof fn law_abandoned_block_poisons(d: DirectionView, hdr: FrameHeader, payload: Seq<u8>)
    requires
        d.block_hdr is Some,
        hdr.typ == FrameType::HEADERS || hdr.typ == FrameType::PUSH_PROMISE,
    ensures
        frame_handled(d, hdr, payload).0.poisoned,
        !snapshottable(frame_handled(d, hdr, payload).0),
{
    reveal(frame_handled);
}

/// A header frame that is too large to keep takes what the table holds with it:
/// the direction is poisoned and refuses to be snapshotted.
pub proof fn law_dropped_header_poisons(
    d: DirectionView,
    seq: u32,
    data: Seq<u8>,
    now_us: u64,
    i: int,
)
    requires
        block_in_order(d),
        0 <= i < fed(d, seq, data, now_us).1.len(),
        fed(d, seq, data, now_us).1[i].truncated,
        fed(d, seq, data, now_us).1[i].is_header_frame,
    ensures
        fed(d, seq, data, now_us).0.poisoned,
        !snapshottable(fed(d, seq, data, now_us).0),
{
    reveal(fed);
    reveal(parsed);
    let (reasm, gap) = pushed(d.reasm, seq, data, now_us);
    let received = DirectionView { reasm, ..d };
    lemma_parsed_truthful(received);
    lemma_parsed_truthful(gap_noted(received));
}

} // verus!
