//! Whole runs of a direction: what holds whatever happened to it, and that a
//! snapshot of it resumes however the stream goes on.
use vstd::prelude::*;

use crate::bytes::{add32, add64, seq_distance};
use crate::conn::framing::{
    begun, law_segmentation_does_not_matter, lemma_longer_twice, lemma_parsed_keeps_order,
    lemma_parsed_settles, lemma_synced_either_side, lemma_synced_in_the_end, lemma_synced_joins,
    lemma_unpoisoned_stays_synced, longer, settled, stays_synced, taken_in,
};
use crate::conn::laws::{
    all_alike, all_truthful, arrived, block_in_order, in_step, law_blocks_are_truthful,
    law_snapshot_resumes_in_step, lemma_distance_after, lemma_parsed_keeps, lemma_parsed_limit,
    lemma_parsed_unfolds, lemma_seeded_reader, lemma_step_alike, lemma_step_limit,
    lemma_unparsed_after, truthful,
};
use crate::conn::{
    about_to_open, boundary_seq, capped, fed, flag, frame_handled, gap_noted,
    lemma_frame_handled_keeps, lemma_step_decreases, midstream_state, parse_step, parsed, seeded,
    snapshottable, start_state, ticked, unparsed_seq, DirectionView, ProcessedFrameView,
};
use crate::frame::{fragment_of, header_at, FrameHeader};
use crate::hpack::laws::{exact_on_observed, law_exactness_rests_on_observation, limits_agree};
use crate::hpack::{peer_capped, FieldView};
use crate::reassembly::supply::Arrival;
use crate::reassembly::{
    anchored, consumed, drained, first_ready, gapped, lemma_drained_step, pushed, syn_noted,
    tail_appended, ReassemblerView,
};

verus! {

// ---------------------------------------------------------------------------
// Whatever happens
// ---------------------------------------------------------------------------

/// What can happen to a direction.
pub enum Event {
    /// Its SYN is seen.
    Syn { seq: u32 },
    /// A segment arrives.
    Segment { seq: u32, data: Seq<u8>, now_us: u64 },
    /// A moment passes.
    Tick { now_us: u64 },
    /// The other side signals a capacity.
    PeerCapacity { n: usize },
    /// The memory for the table is limited.
    TrackLimit { n: usize },
    /// It is seeded from a snapshot, genuine or not.
    Seed { entries: Seq<FieldView>, max_size: usize, next_frame_seq: u32 },
}

/// The state after an event, and the frames that come of it.
pub open spec fn after_event(d: DirectionView, e: Event) -> (
    DirectionView,
    Seq<ProcessedFrameView>,
) {
    match e {
        Event::Syn { seq } => (
            DirectionView { reasm: syn_noted(d.reasm, seq), ..d },
            Seq::empty(),
        ),
        Event::Segment { seq, data, now_us } => fed(d, seq, data, now_us),
        Event::Tick { now_us } => ticked(d, now_us),
        Event::PeerCapacity { n } => (
            DirectionView { dec: peer_capped(d.dec, n), ..d },
            Seq::empty(),
        ),
        Event::TrackLimit { n } => (capped(d, n), Seq::empty()),
        Event::Seed { entries, max_size, next_frame_seq } => (
            seeded(d, entries, max_size, next_frame_seq),
            Seq::empty(),
        ),
    }
}

/// The state after all the events of a list, and all the frames.
pub open spec fn run(d: DirectionView, events: Seq<Event>) -> (
    DirectionView,
    Seq<ProcessedFrameView>,
)
    decreases events.len(),
{
    if events.len() == 0 {
        (d, Seq::empty())
    } else {
        let (before, fs) = run(d, events.drop_last());
        let (after, gs) = after_event(before, events.last());
        (after, fs + gs)
    }
}

/// Whether a direction is as it was made: joined mid-stream, or from its first
/// byte.
pub open spec fn just_made(d: DirectionView) -> bool {
    ||| d == midstream_state(d.keep_payloads)
    ||| d == start_state(d.keep_payloads, d.expect_preface)
}

/// What holds of every direction, whatever happened to it.
pub open spec fn reached(d: DirectionView) -> bool {
    &&& block_in_order(d)
    &&& exact_on_observed(d.dec)
    &&& d.dec.track_limit == d.table_track_limit
    &&& !d.desynced && d.pending_start_seq is None ==> settled(d)
}

proof fn lemma_frame_observed(d: DirectionView, hdr: FrameHeader, payload: Seq<u8>)
    requires
        exact_on_observed(d.dec),
    ensures
        exact_on_observed(frame_handled(d, hdr, payload).0.dec),
{
    reveal(frame_handled);
    let b = about_to_open(d);
    if let Some(frag) = fragment_of(hdr, payload) {
        law_exactness_rests_on_observation(b.dec, b.block + frag, 0);
    }
    law_exactness_rests_on_observation(d.dec, d.block + payload, 0);
}

proof fn lemma_parsed_observed(d: DirectionView)
    requires
        exact_on_observed(d.dec),
    ensures
        exact_on_observed(parsed(d).0.dec),
        parsed(d).0.table_track_limit == d.table_track_limit,
        parsed(d).0.keep_payloads == d.keep_payloads,
    decreases
            d.reasm.avail.len(),
            flag(d.pending_start_seq is Some),
            flag(d.desynced),
            flag(d.expect_preface),
{
    lemma_parsed_unfolds(d);
    lemma_step_decreases(d);
    if d.reasm.avail.len() >= 9 {
        let hdr = header_at(d.reasm.avail);
        let payload = d.reasm.avail.subrange(9, 9 + hdr.len);
        let taken = DirectionView {
            reasm: consumed(d.reasm, 9 + hdr.len),
            frames: add64(d.frames, 1),
            ..d
        };
        lemma_frame_handled_keeps(taken, hdr, payload);
        lemma_frame_observed(taken, hdr, payload);
    }
    if parse_step(d).1 !is Stop {
        lemma_parsed_observed(parse_step(d).0);
    }
}

proof fn lemma_parsed_reached(d: DirectionView)
    requires
        exact_on_observed(d.dec),
        d.dec.track_limit == d.table_track_limit,
    ensures
        exact_on_observed(parsed(d).0.dec),
        parsed(d).0.dec.track_limit == parsed(d).0.table_track_limit,
        parsed(d).0.keep_payloads == d.keep_payloads,
        !parsed(d).0.desynced ==> settled(parsed(d).0),
{
    lemma_parsed_observed(d);
    lemma_parsed_limit(d);
    if !parsed(d).0.desynced {
        lemma_parsed_settles(d);
    }
}

/// An event leaves all that in place.
proof fn lemma_event_reached(d: DirectionView, e: Event)
    requires
        reached(d),
    ensures
        reached(after_event(d, e).0),
        after_event(d, e).0.keep_payloads == d.keep_payloads,
        all_truthful(after_event(d, e).1),
{
    match e {
        Event::Segment { seq, data, now_us } => {
            law_blocks_are_truthful(d, seq, data, now_us);
            reveal(fed);
            let (reasm, gap) = pushed(d.reasm, seq, data, now_us);
            let received = DirectionView { reasm, ..d };
            lemma_parsed_reached(received);
            lemma_parsed_reached(gap_noted(received));
        },
        Event::Tick { now_us } => {
            law_blocks_are_truthful(d, 0, Seq::empty(), now_us);
            reveal(ticked);
            lemma_parsed_reached(gap_noted(DirectionView { reasm: gapped(d.reasm), ..d }));
        },
        Event::PeerCapacity { n } => {
            law_exactness_rests_on_observation(d.dec, Seq::empty(), n);
        },
        Event::TrackLimit { n } => {
            law_exactness_rests_on_observation(d.dec, Seq::empty(), n);
        },
        _ => {},
    }
}

/// Whatever happens to a direction, joined mid-stream or not: every block that it
/// decodes tells the truth about itself. It calls itself exact only if it has no
/// gaps at all, and has a promised stream, with the reserved bit clear, exactly
/// where it is a push promise.
pub proof fn law_every_run_is_truthful(d: DirectionView, events: Seq<Event>)
    requires
        just_made(d),
    ensures
        all_truthful(run(d, events).1),
        reached(run(d, events).0),
        run(d, events).0.keep_payloads == d.keep_payloads,
    decreases events.len(),
{
    if events.len() == 0 {
        lemma_parsed_unfolds(d);
    } else {
        law_every_run_is_truthful(d, events.drop_last());
        let (before, fs) = run(d, events.drop_last());
        lemma_event_reached(before, events.last());
        let gs = after_event(before, events.last()).1;
        let all = fs + gs;
        assert forall|i: int| 0 <= i < all.len() implies ((#[trigger] all[i]).decoded matches Some(
            b,
        ) ==> truthful(b)) by {
            if i < fs.len() {
                assert(all[i] == fs[i]);
            } else {
                assert(all[i] == gs[i - fs.len()]);
            }
        }
    }
}

// ---------------------------------------------------------------------------
// However segments arrive
// ---------------------------------------------------------------------------

/// The state once segments have arrived one by one, and all the frames that they
/// complete.
pub open spec fn segments_fed(d: DirectionView, segs: Seq<Arrival>) -> (
    DirectionView,
    Seq<ProcessedFrameView>,
)
    decreases segs.len(),
{
    if segs.len() == 0 {
        (d, Seq::empty())
    } else {
        let (e, fs) = fed(d, segs[0].seq, segs[0].data, segs[0].at_us);
        let (last, gs) = segments_fed(e, segs.drop_first());
        (last, fs + gs)
    }
}

/// Whether no segment reveals a loss.
pub open spec fn lossless(d: DirectionView, segs: Seq<Arrival>) -> bool
    decreases segs.len(),
{
    segs.len() > 0 ==> {
        &&& !pushed(d.reasm, segs[0].seq, segs[0].data, segs[0].at_us).1
        &&& lossless(fed(d, segs[0].seq, segs[0].data, segs[0].at_us).0, segs.drop_first())
    }
}

/// Whether frame boundaries stay known all through.
pub open spec fn keeps_its_place(d: DirectionView, segs: Seq<Arrival>) -> bool
    decreases segs.len(),
{
    segs.len() > 0 ==> {
        &&& stays_synced(taken_in(d, segs[0].seq, segs[0].data, segs[0].at_us))
        &&& keeps_its_place(fed(d, segs[0].seq, segs[0].data, segs[0].at_us).0, segs.drop_first())
    }
}

/// The bytes that a segment makes available, with those it was waited for.
pub open spec fn gain(r: ReassemblerView, s: Arrival) -> Seq<u8> {
    pushed(r, s.seq, s.data, s.at_us).0.avail.skip(r.avail.len() as int)
}

/// The bytes that segments make available, however they arrive.
pub open spec fn gained(d: DirectionView, segs: Seq<Arrival>) -> Seq<u8>
    decreases segs.len(),
{
    if segs.len() == 0 {
        Seq::empty()
    } else {
        gain(d.reasm, segs[0]) + gained(
            fed(d, segs[0].seq, segs[0].data, segs[0].at_us).0,
            segs.drop_first(),
        )
    }
}

/// Whether two directions are the same but for what is still to be put in order.
spec fn same_place(d: DirectionView, e: DirectionView) -> bool {
    &&& e == (DirectionView { reasm: e.reasm, ..d })
    &&& d.reasm.avail == e.reasm.avail
    &&& d.reasm.buf_off == e.reasm.buf_off
    &&& d.reasm.base_seq == e.reasm.base_seq
}

proof fn lemma_frame_handled_elsewhere(
    d: DirectionView,
    r: ReassemblerView,
    hdr: FrameHeader,
    payload: Seq<u8>,
)
    ensures
        frame_handled(DirectionView { reasm: r, ..d }, hdr, payload) == (
            DirectionView { reasm: r, ..frame_handled(d, hdr, payload).0 },
            frame_handled(d, hdr, payload).1,
        ),
{
    reveal(frame_handled);
}

#[verifier::rlimit(40)]
proof fn lemma_same_step(d: DirectionView, e: DirectionView)
    requires
        same_place(d, e),
    ensures
        same_place(parse_step(d).0, parse_step(e).0),
        parse_step(d).1 == parse_step(e).1,
{
    if d.reasm.avail.len() >= 9 {
        let hdr = header_at(d.reasm.avail);
        let payload = d.reasm.avail.subrange(9, 9 + hdr.len);
        let taken = DirectionView {
            reasm: consumed(d.reasm, 9 + hdr.len),
            frames: add64(d.frames, 1),
            ..d
        };
        lemma_frame_handled_elsewhere(taken, consumed(e.reasm, 9 + hdr.len), hdr, payload);
        lemma_frame_handled_keeps(taken, hdr, payload);
    }
}

proof fn lemma_same_parsed(d: DirectionView, e: DirectionView)
    requires
        same_place(d, e),
    ensures
        same_place(parsed(d).0, parsed(e).0),
        parsed(d).1 == parsed(e).1,
        stays_synced(d) == stays_synced(e),
    decreases
            d.reasm.avail.len(),
            flag(d.pending_start_seq is Some),
            flag(d.desynced),
            flag(d.expect_preface),
{
    lemma_parsed_unfolds(d);
    lemma_parsed_unfolds(e);
    lemma_step_decreases(d);
    lemma_step_decreases(e);
    lemma_same_step(d, e);
    if parse_step(d).1 !is Stop {
        lemma_same_parsed(parse_step(d).0, parse_step(e).0);
    }
}

proof fn lemma_drained_gains(r: ReassemblerView)
    ensures
        r.avail.is_prefix_of(drained(r).avail),
        drained(r).base_seq == r.base_seq,
        drained(r).buf_off == r.buf_off,
        drained(r).initialized == r.initialized,
    decreases r.ooo.len(),
{
    lemma_drained_step(r);
    let i = first_ready(r.ooo, r.next_seq, 0);
    if 0 <= i < r.ooo.len() {
        let rest = ReassemblerView { ooo: r.ooo.remove(i), ..r };
        let a = tail_appended(rest, r.ooo[i].1, -seq_distance(r.ooo[i].0, r.next_seq));
        assert(r.avail.is_prefix_of(a.avail));
        lemma_drained_gains(a);
    }
}

/// Taking in a segment that reveals no loss is having the bytes that it makes
/// available.
proof fn lemma_taken_in_gains(d: DirectionView, s: Arrival)
    requires
        d.reasm.initialized,
        !pushed(d.reasm, s.seq, s.data, s.at_us).1,
    ensures
        same_place(longer(d, gain(d.reasm, s)), taken_in(d, s.seq, s.data, s.at_us)),
        taken_in(d, s.seq, s.data, s.at_us).reasm.initialized,
{
    let r = d.reasm;
    let ahead = seq_distance(s.seq, r.next_seq);
    let a = tail_appended(r, s.data, -ahead);
    assert(r.avail.is_prefix_of(a.avail));
    lemma_drained_gains(a);
    let after = pushed(r, s.seq, s.data, s.at_us).0;
    assert(r.avail.is_prefix_of(after.avail));
    assert(r.avail + after.avail.skip(r.avail.len() as int) =~= after.avail);
}

/// However segments arrive, without a loss: the frames are those of the bytes that
/// they make available, taken all at once.
proof fn lemma_segments_fed(d: DirectionView, segs: Seq<Arrival>)
    requires
        d.reasm.initialized,
        lossless(d, segs),
        stays_synced(longer(d, gained(d, segs))),
        settled(d) || segs.len() > 0,
    ensures
        parsed(longer(d, gained(d, segs))).1 == segments_fed(d, segs).1,
        same_place(parsed(longer(d, gained(d, segs))).0, segments_fed(d, segs).0),
    decreases segs.len(),
{
    let none = Seq::<ProcessedFrameView>::empty();
    if segs.len() == 0 {
        assert(d.reasm.avail + gained(d, segs) =~= d.reasm.avail);
        let l = longer(d, gained(d, segs));
        assert(same_place(d, l));
        lemma_same_parsed(d, l);
        lemma_parsed_unfolds(d);
        assert(same_place(l, d));
    } else {
        let s = segs[0];
        let rest = segs.drop_first();
        let x = gain(d.reasm, s);
        let t = taken_in(d, s.seq, s.data, s.at_us);
        let l = longer(d, x);
        assert(fed(d, s.seq, s.data, s.at_us) == parsed(t)) by {
            reveal(fed);
        }
        lemma_taken_in_gains(d, s);
        lemma_same_parsed(l, t);
        let e = parsed(t).0;
        let y = gained(e, rest);
        lemma_longer_twice(d, x, y);
        lemma_synced_either_side(l, y);
        let m = parsed(l).0;
        lemma_same_step(m, e);
        assert(settled(e)) by {
            assert(same_place(m, e));
            assert(parse_step(e).1 is Stop);
            lemma_settled_elsewhere(m, e);
        }
        assert(same_place(longer(m, y), longer(e, y)));
        lemma_same_parsed(longer(m, y), longer(e, y));
        lemma_parsed_keeps_order(t);
        lemma_segments_fed(e, rest);
        law_segmentation_does_not_matter(l, y);
        assert(parsed(longer(d, x + y)).1 =~= segments_fed(d, segs).1);
    }
}

proof fn lemma_settled_elsewhere(d: DirectionView, e: DirectionView)
    requires
        same_place(d, e),
        settled(d),
        !d.desynced,
    ensures
        settled(e),
{
}

/// Keeping its place call by call is keeping it over all the bytes.
proof fn lemma_place_kept(d: DirectionView, segs: Seq<Arrival>)
    requires
        d.reasm.initialized,
        !d.desynced,
        lossless(d, segs),
        keeps_its_place(d, segs),
        settled(d) || segs.len() > 0,
    ensures
        stays_synced(longer(d, gained(d, segs))),
    decreases segs.len(),
{
    if segs.len() == 0 {
        assert(d.reasm.avail + gained(d, segs) =~= d.reasm.avail);
        let l = longer(d, gained(d, segs));
        assert(same_place(d, l));
        lemma_step_decreases(d);
        assert(stays_synced(d));
        lemma_same_parsed(d, l);
    } else {
        let s = segs[0];
        let rest = segs.drop_first();
        let x = gain(d.reasm, s);
        let t = taken_in(d, s.seq, s.data, s.at_us);
        let l = longer(d, x);
        assert(fed(d, s.seq, s.data, s.at_us) == parsed(t)) by {
            reveal(fed);
        }
        lemma_taken_in_gains(d, s);
        lemma_same_parsed(l, t);
        let e = parsed(t).0;
        let y = gained(e, rest);
        lemma_parsed_keeps_order(t);
        lemma_synced_in_the_end(t);
        lemma_parsed_settles(t);
        lemma_place_kept(e, rest);
        let m = parsed(l).0;
        assert(same_place(longer(m, y), longer(e, y)));
        lemma_same_parsed(longer(m, y), longer(e, y));
        lemma_synced_joins(l, y);
        lemma_longer_twice(d, x, y);
    }
}

proof fn lemma_segments_keep(d: DirectionView, segs: Seq<Arrival>)
    ensures
        d.poisoned ==> segments_fed(d, segs).0.poisoned,
        d.snapshot_misaligned ==> segments_fed(d, segs).0.snapshot_misaligned,
    decreases segs.len(),
{
    if segs.len() > 0 {
        let s = segs[0];
        reveal(fed);
        lemma_parsed_keeps(taken_in(d, s.seq, s.data, s.at_us));
        lemma_segments_keep(fed(d, s.seq, s.data, s.at_us).0, segs.drop_first());
    }
}

/// A direction that knows its place, and is neither poisoned nor misaligned in the
/// end, has kept its place all through.
pub proof fn law_unpoisoned_keeps_its_place(d: DirectionView, segs: Seq<Arrival>)
    requires
        !d.desynced,
        lossless(d, segs),
        !segments_fed(d, segs).0.poisoned,
        !segments_fed(d, segs).0.snapshot_misaligned,
    ensures
        keeps_its_place(d, segs),
    decreases segs.len(),
{
    if segs.len() > 0 {
        let s = segs[0];
        let t = taken_in(d, s.seq, s.data, s.at_us);
        assert(fed(d, s.seq, s.data, s.at_us) == parsed(t)) by {
            reveal(fed);
        }
        let e = parsed(t).0;
        lemma_segments_keep(e, segs.drop_first());
        lemma_unpoisoned_stays_synced(t);
        lemma_synced_in_the_end(t);
        law_unpoisoned_keeps_its_place(e, segs.drop_first());
    }
}

// ---------------------------------------------------------------------------
// Resuming from a snapshot
// ---------------------------------------------------------------------------

/// Of two directions in step, the second keeps its place where the first does.
proof fn lemma_in_step_synced(d: DirectionView, e: DirectionView)
    requires
        in_step(d, e),
        limits_agree(d.dec, e.dec, parsed(d).0.dec),
        stays_synced(d),
    ensures
        stays_synced(e),
    decreases
            d.reasm.avail.len(),
            flag(d.pending_start_seq is Some),
            flag(d.desynced),
            flag(d.expect_preface),
{
    lemma_parsed_unfolds(d);
    lemma_step_decreases(d);
    lemma_step_decreases(e);
    lemma_step_limit(d);
    lemma_step_limit(e);
    lemma_parsed_limit(parse_step(d).0);
    lemma_step_alike(d, e);
    if parse_step(d).1 !is Stop {
        lemma_in_step_synced(parse_step(d).0, parse_step(e).0);
    }
}

/// A direction that joined mid-stream and was seeded stays synced if it does from
/// the snapshot point on.
proof fn lemma_seeded_synced(e: DirectionView, target: u32)
    requires
        e.pending_start_seq == Some(target),
        e.discard == 0,
        !e.desynced,
        0 <= seq_distance(target, unparsed_seq(e.reasm)) <= e.reasm.avail.len(),
        stays_synced(arrived(e, seq_distance(target, unparsed_seq(e.reasm)))),
    ensures
        stays_synced(e),
{
    let delta = seq_distance(target, unparsed_seq(e.reasm));
    lemma_step_decreases(e);
    let e1 = parse_step(e).0;
    if delta > 0 {
        lemma_unparsed_after(e.reasm, delta);
        lemma_distance_after(target, unparsed_seq(e.reasm), delta);
        lemma_step_decreases(e1);
        assert(parse_step(e1).0 == arrived(e, delta));
        assert(stays_synced(e1));
    } else {
        assert(e.reasm.avail.skip(0) =~= e.reasm.avail);
        assert(consumed(e.reasm, 0) == e.reasm);
        assert(e1 == arrived(e, delta));
    }
}

/// The bytes that a direction has from its next frame boundary on, once segments
/// have arrived.
pub open spec fn from_boundary_on(d: DirectionView, segs: Seq<Arrival>) -> Seq<u8> {
    (d.reasm.avail + gained(d, segs)).skip(d.discard as int)
}

/// A direction at its boundary, once the rest of a payload is thrown away.
spec fn at_boundary(d: DirectionView) -> DirectionView {
    DirectionView { reasm: consumed(d.reasm, d.discard as int), discard: 0, ..d }
}

proof fn lemma_boundary_synced(d: DirectionView)
    requires
        stays_synced(d),
        d.discard <= d.reasm.avail.len(),
    ensures
        stays_synced(at_boundary(d)),
        parsed(at_boundary(d)) == parsed(d),
{
    lemma_step_decreases(d);
    lemma_parsed_unfolds(d);
    if d.discard == 0 {
        assert(d.reasm.avail.skip(0) =~= d.reasm.avail);
        assert(at_boundary(d).reasm =~= d.reasm);
        assert(at_boundary(d) == d);
    }
}

/// Whether `d` can be snapshotted and resumed by one that holds `z` from sequence
/// number `q` on.
spec fn resumable(d: DirectionView, q: u32, z: Seq<u8>) -> bool {
    &&& block_in_order(d)
    &&& exact_on_observed(d.dec)
    &&& d.dec.track_limit == d.table_track_limit
    &&& snapshottable(d)
    &&& d.keep_payloads
    &&& d.table_track_limit == usize::MAX
    &&& d.pending_start_seq is None
    &&& stays_synced(d)
    &&& d.discard <= d.reasm.avail.len()
    &&& z.len() > 0
    &&& 0 <= seq_distance(boundary_seq(d), q) <= z.len()
    &&& z.skip(seq_distance(boundary_seq(d), q)) == d.reasm.avail.skip(d.discard as int)
}

/// The direction that resumes `d`, before it parses anything.
spec fn resuming(d: DirectionView, q: u32, z: Seq<u8>) -> DirectionView {
    longer(
        begun(seeded(midstream_state(true), d.dec.table, d.dec.max_size, boundary_seq(d)), q),
        z,
    )
}

#[verifier::rlimit(40)]
proof fn lemma_resuming(d: DirectionView, q: u32, z: Seq<u8>)
    requires
        resumable(d, q, z),
    ensures
        ({
            let n = boundary_seq(d);
            let k = seq_distance(n, q);
            let e = resuming(d, q, z);
            &&& in_step(parsed(d).0, parsed(e).0)
            &&& all_alike(parsed(d).1, parsed(e).1)
            &&& !parsed(e).0.snapshot_misaligned
            &&& parsed(e).0.pre_snapshot_skipped == k
            &&& parsed(e).1.len() > 0 ==> parsed(e).1[0].start_seq == n && parsed(e).1[0].start_off
                == k
        }),
{
    let n = boundary_seq(d);
    let k = seq_distance(n, q);
    let before = z.take(k);
    let y = z.skip(k);
    assert(before + y =~= z);
    assert(add32(n, -k) == q);
    let e0 = longer(begun(midstream_state(true), q), z);
    lemma_seeded_reader(d.dec.table, d.dec.max_size, n, before, y, 0);
    assert(resuming(d, q, z) == seeded(e0, d.dec.table, d.dec.max_size, n));
    law_snapshot_resumes_in_step(d, e0);
}

proof fn lemma_resuming_synced(d: DirectionView, q: u32, z: Seq<u8>)
    requires
        resumable(d, q, z),
    ensures
        stays_synced(resuming(d, q, z)),
{
    let n = boundary_seq(d);
    let k = seq_distance(n, q);
    let e = resuming(d, q, z);
    let a = arrived(e, k);
    let l = at_boundary(d);
    lemma_boundary_synced(d);
    assert(e.reasm.avail =~= z);
    assert(unparsed_seq(e.reasm) == q);
    assert(a.block =~= l.block);
    assert(in_step(l, a));
    lemma_in_step_synced(l, a);
    lemma_seeded_synced(e, n);
}

/// A snapshot resumes, whatever came before and however the stream goes on. Let a
/// direction that keeps payloads be made, and let anything happen to it, until it
/// can be snapshotted: `n` is then its next frame boundary. Let another one join
/// mid-stream and be seeded with its table, its capacity and `n`. Now let segments
/// arrive at both, in any order, cut in any way and sent again any number of
/// times, without a loss, that bring both the same bytes from `n` on; the second
/// may also see bytes before `n`. Then the second one takes exactly the frames
/// that the first one takes, with the same header lists. It is not misaligned, it
/// counts exactly the bytes before `n` as skipped, none of them is part of a frame,
/// and the two are in step.
///
/// The first direction has to know where its stream starts, have no limit on its
/// table, and be past any snapshot point of its own; and no header frame may lose
/// it its place, which it does not if it is not poisoned in the end.
pub proof fn law_every_snapshot_resumes(
    made: DirectionView,
    events: Seq<Event>,
    later: Seq<Arrival>,
    seen: Seq<Arrival>,
)
    requires
        just_made(made),
        made.keep_payloads,
        ({
            let d = run(made, events).0;
            let n = boundary_seq(d);
            let e = seeded(midstream_state(true), d.dec.table, d.dec.max_size, n);
            &&& snapshottable(d)
            &&& d.table_track_limit == usize::MAX
            &&& d.pending_start_seq is None
            &&& d.reasm.initialized
            &&& lossless(d, later)
            &&& keeps_its_place(d, later)
            &&& d.discard <= d.reasm.avail.len() + gained(d, later).len()
            &&& seen.len() > 0
            &&& seen[0].data.len() > 0
            &&& lossless(e, seen)
            &&& 0 <= seq_distance(n, seen[0].seq) <= gained(e, seen).len()
            &&& gained(e, seen).skip(seq_distance(n, seen[0].seq)) == from_boundary_on(d, later)
        }),
    ensures
        ({
            let d = run(made, events).0;
            let n = boundary_seq(d);
            let e = seeded(midstream_state(true), d.dec.table, d.dec.max_size, n);
            let (d2, fs) = segments_fed(d, later);
            let (e2, gs) = segments_fed(e, seen);
            &&& all_alike(fs, gs)
            &&& in_step(d2, e2)
            &&& !e2.snapshot_misaligned
            &&& e2.pre_snapshot_skipped == seq_distance(n, seen[0].seq)
            &&& gs.len() > 0 ==> gs[0].start_seq == n && gs[0].start_off == seq_distance(
                n,
                seen[0].seq,
            )
        }),
{
    let d = run(made, events).0;
    let n = boundary_seq(d);
    let e = seeded(midstream_state(true), d.dec.table, d.dec.max_size, n);
    let q = seen[0].seq;
    let x = gained(d, later);
    let z = gained(e, seen);
    law_every_run_is_truthful(made, events);
    lemma_place_kept(d, later);
    lemma_segments_fed(d, later);
    lemma_first_segment_anchors(e, seen);
    lemma_first_gain(e.reasm, seen[0]);
    let l = longer(d, x);
    assert(boundary_seq(l) == n);
    assert(resumable(l, q, z));
    lemma_resuming(l, q, z);
    lemma_resuming_synced(l, q, z);
    assert(resuming(l, q, z) == longer(begun(e, q), z));
    lemma_segments_fed(begun(e, q), seen);
}

/// The first segment of all says where the stream starts.
proof fn lemma_first_segment_anchors(d: DirectionView, segs: Seq<Arrival>)
    requires
        segs.len() > 0,
        segs[0].data.len() > 0,
    ensures
        segments_fed(begun(d, segs[0].seq), segs) == segments_fed(d, segs),
        lossless(begun(d, segs[0].seq), segs) == lossless(d, segs),
        gained(begun(d, segs[0].seq), segs) == gained(d, segs),
{
    let s = segs[0];
    let b = begun(d, s.seq);
    assert(pushed(b.reasm, s.seq, s.data, s.at_us) == pushed(d.reasm, s.seq, s.data, s.at_us));
    assert(fed(b, s.seq, s.data, s.at_us) == fed(d, s.seq, s.data, s.at_us)) by {
        reveal(fed);
        assert(taken_in(b, s.seq, s.data, s.at_us) == taken_in(d, s.seq, s.data, s.at_us));
    }
}

/// It makes its bytes available.
proof fn lemma_first_gain(r: ReassemblerView, s: Arrival)
    requires
        !r.initialized,
        s.data.len() > 0,
    ensures
        gain(r, s).len() > 0,
{
    let a = anchored(r, s.seq);
    assert(seq_distance(s.seq, a.next_seq) == 0);
    let t = tail_appended(a, s.data, 0);
    assert(t.avail.len() > r.avail.len());
    lemma_drained_gains(t);
}

} // verus!
