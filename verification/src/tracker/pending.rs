//! Bytes that were received and not framed yet, and whether a capture has them.
use vstd::prelude::*;

use crate::addr::SocketAddr;
use crate::bytes::add64;
use crate::conn::laws::lemma_parsed_unfolds;
use crate::conn::{
    boundary_from, fed, flag, gap_noted, lemma_boundary_from, lemma_frame_handled_keeps,
    lemma_step_decreases, parse_step, parsed, ticked, DirectionView, RESYNC_WINDOW,
};
use crate::frame::header_at;
use crate::pkt::{tcp_flags, SegmentView};
use crate::reassembly::supply::{
    backed, lemma_backed_by_nothing, lemma_backed_grows, lemma_consumed_backed, lemma_gapped_backed,
    lemma_pushed_backed, received, supplied, Arrival,
};
use crate::reassembly::{aligned, consumed, gapped, pushed, syn_noted, ReassemblerView};
use crate::tracker::{dir_snapshot_of, fresh_track, seg_has, segment_fed, unframed, DirTrackView};

verus! {

/// Whether the noted time is right, `h` being the segments that arrived so far:
/// without one nothing is unframed, and with one every unframed byte came with a
/// segment that arrived then or later.
pub open spec fn accounted(t: DirTrackView, h: Seq<Arrival>) -> bool {
    &&& aligned(t.dir.reasm)
    &&& match t.pending_since_us {
        None => !unframed(t.dir.reasm),
        Some(p) => supplied(t.dir.reasm, h, p),
    }
}

/// A step of parsing consumes bytes, if anything.
proof fn lemma_step_consumes(d: DirectionView) -> (k: int)
    ensures
        k >= 0,
        parse_step(d).0.reasm == consumed(d.reasm, k) || parse_step(d).0.reasm == d.reasm,
{
    let n = d.reasm.avail.len() as int;
    if d.discard > 0 {
        if d.discard < n {
            d.discard as int
        } else {
            n
        }
    } else if d.pending_start_seq is Some {
        n - parse_step(d).0.reasm.avail.len()
    } else if d.desynced {
        lemma_boundary_from(d.reasm.avail, 0);
        match boundary_from(d.reasm.avail, 0) {
            Some((off, _)) => off,
            None => if n > RESYNC_WINDOW {
                n - RESYNC_WINDOW
            } else {
                0
            },
        }
    } else if d.expect_preface {
        24
    } else if n < 9 {
        0
    } else {
        let hdr = header_at(d.reasm.avail);
        let taken = DirectionView {
            reasm: consumed(d.reasm, 9 + hdr.len),
            frames: add64(d.frames, 1),
            ..d
        };
        lemma_frame_handled_keeps(taken, hdr, d.reasm.avail.subrange(9, 9 + hdr.len));
        if crate::conn::keeps_payload(d, hdr) {
            9 + hdr.len
        } else {
            9
        }
    }
}

proof fn lemma_parsed_backed(d: DirectionView, h: Seq<Arrival>, since: u64)
    requires
        backed(d.reasm, h, since),
    ensures
        backed(parsed(d).0.reasm, h, since),
    decreases
            d.reasm.avail.len(),
            flag(d.pending_start_seq is Some),
            flag(d.desynced),
            flag(d.expect_preface),
{
    let k = lemma_step_consumes(d);
    lemma_consumed_backed(d.reasm, h, since, k);
    lemma_step_decreases(d);
    lemma_parsed_unfolds(d);
    if parse_step(d).1 !is Stop {
        lemma_parsed_backed(parse_step(d).0, h, since);
    }
}

proof fn lemma_ticked_backed(d: DirectionView, h: Seq<Arrival>, since: u64, now_us: u64)
    requires
        backed(d.reasm, h, since),
    ensures
        backed(ticked(d, now_us).0.reasm, h, since),
{
    reveal(ticked);
    lemma_gapped_backed(d.reasm, h, since);
    lemma_parsed_backed(gap_noted(DirectionView { reasm: gapped(d.reasm), ..d }), h, since);
}

/// The time up to which bytes are accounted for, once a segment arrives.
spec fn since_when(t: DirTrackView, now_us: u64) -> u64 {
    match t.pending_since_us {
        Some(p) => p,
        None => now_us,
    }
}

proof fn lemma_accounted(t: DirTrackView, h: Seq<Arrival>)
    ensures
        accounted(t, h) <==> match t.pending_since_us {
            None => backed(t.dir.reasm, Seq::empty(), 0),
            Some(p) => backed(t.dir.reasm, h, p),
        },
{
    reveal(backed);
    if aligned(t.dir.reasm) {
        lemma_backed_by_nothing(t.dir.reasm, Seq::empty(), 0);
    }
}

proof fn lemma_syn_backed(r: ReassemblerView, seq: u32, h: Seq<Arrival>, since: u64)
    requires
        backed(r, h, since),
    ensures
        backed(syn_noted(r, seq), h, since),
{
    reveal(backed);
    if !r.initialized {
        assert(aligned(syn_noted(r, seq)));
    }
}

/// The noted time is right for a direction that was just found.
pub proof fn law_pending_time_starts_right(
    from_start: bool,
    expect_preface: bool,
    table_limit: usize,
)
    ensures
        accounted(fresh_track(from_start, expect_preface, table_limit), Seq::empty()),
{
}

/// The noted time stays right whatever segments arrive, as long as the clock
/// does not go back behind it.
pub proof fn law_pending_time_stays_right(
    t: DirTrackView,
    other: DirTrackView,
    s: SegmentView,
    h: Seq<Arrival>,
    now_us: u64,
)
    requires
        accounted(t, h),
        t.pending_since_us matches Some(p) ==> p <= now_us,
    ensures
        ({
            let g = h.push(Arrival { at_us: now_us, seq: s.seq, data: s.payload });
            accounted(segment_fed(t, other, s, now_us).0, g)
        }),
{
    let arrival = Arrival { at_us: now_us, seq: s.seq, data: s.payload };
    let g = h.push(arrival);
    let since = since_when(t, now_us);
    let after = segment_fed(t, other, s, now_us).0;
    lemma_accounted(t, h);
    lemma_accounted(after, g);
    assert(backed(t.dir.reasm, g, since)) by {
        if t.pending_since_us is None {
            lemma_backed_by_nothing(t.dir.reasm, g, since);
        } else {
            lemma_backed_grows(t.dir.reasm, h, since, g, since);
        }
    }
    assert(received(g, since, s.seq, s.payload)) by {
        assert(g[h.len() as int] == arrival);
    }
    lemma_syn_backed(t.dir.reasm, s.seq, g, since);
    let dir = if seg_has(s, tcp_flags::SYN) {
        DirectionView { reasm: syn_noted(t.dir.reasm, s.seq), ..t.dir }
    } else {
        t.dir
    };
    if s.payload.len() == 0 {
        if t.pending_since_us is None {
            lemma_syn_backed(t.dir.reasm, s.seq, Seq::empty(), 0);
        }
    } else {
        reveal(fed);
        lemma_pushed_backed(dir.reasm, g, since, s.seq, s.payload, now_us);
        let (reasm, gap) = pushed(dir.reasm, s.seq, s.payload, now_us);
        let got = DirectionView { reasm, ..dir };
        lemma_parsed_backed(
            if gap {
                gap_noted(got)
            } else {
                got
            },
            g,
            since,
        );
        assert(backed(after.dir.reasm, g, since));
        if !unframed(after.dir.reasm) {
            assert(aligned(after.dir.reasm)) by {
                reveal(backed);
            }
            lemma_backed_by_nothing(after.dir.reasm, Seq::empty(), 0);
        }
    }
}

/// The noted time stays right however much time passes, and whatever arrives in
/// the opposite direction.
pub proof fn law_pending_time_outlasts(
    t: DirTrackView,
    other: DirTrackView,
    s: SegmentView,
    h: Seq<Arrival>,
    now_us: u64,
)
    requires
        accounted(t, h),
    ensures
        accounted(DirTrackView { dir: ticked(t.dir, now_us).0, ..t }, h),
        accounted(segment_fed(other, t, s, now_us).1, h),
{
    let later = DirTrackView { dir: ticked(t.dir, now_us).0, ..t };
    lemma_accounted(t, h);
    lemma_accounted(later, h);
    match t.pending_since_us {
        None => lemma_ticked_backed(t.dir, Seq::empty(), 0, now_us),
        Some(p) => lemma_ticked_backed(t.dir, h, p, now_us),
    }
}

/// A direction that is offered as usable has all its unframed bytes in the
/// capture: each came with a segment that is no older than the oldest packet the
/// capture starts with.
pub proof fn law_capture_has_what_is_unframed(
    name: Seq<char>,
    src: SocketAddr,
    dst: SocketAddr,
    t: DirTrackView,
    ring_oldest_us: Option<u64>,
    h: Seq<Arrival>,
)
    requires
        accounted(t, h),
        dir_snapshot_of(name, src, dst, t, ring_oldest_us).usable,
        unframed(t.dir.reasm),
    ensures
        ring_oldest_us is Some,
        supplied(t.dir.reasm, h, ring_oldest_us->Some_0),
{
    lemma_accounted(t, h);
    lemma_backed_grows(
        t.dir.reasm,
        h,
        t.pending_since_us->Some_0,
        h,
        ring_oldest_us->Some_0,
    );
    reveal(backed);
}

} // verus!
