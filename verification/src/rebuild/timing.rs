//! Timestamps are faithful: what a packet of the capture brought to light leaves
//! with the time of that packet.
use vstd::prelude::*;

use crate::bytes::add64;
use crate::pkt::{segment_in, SegmentView};
use crate::rebuild::counting::placed;
use crate::rebuild::order::{lemma_sorted_is_permutation, slot_order};
use crate::rebuild::replay::{
    arriving, at_hand, conn_for, conn_replayed, opens_conn, packet_replayed, payload_taken,
    segment_replayed, ConnStateView, DirStateView, RebuilderView,
};
use crate::rebuild::seeds::{Route, SeedView};
use crate::rebuild::synth::{
    client_stream, conn_plan, handshake, pieces, planned, rebuilt_packets, rebuilt_plan, slots,
    stream_plan, OutPktView,
};
use crate::rebuild::synth_laws::{countable, lemma_slots_in_order, stream_of, whole_plan};
use crate::rebuild::Report;
use crate::tracker::{key_between, seg_dst, seg_src};

verus! {

// ---------------------------------------------------------------------------
// What a packet adds
// ---------------------------------------------------------------------------

/// Whether a list went on from `before` with entries of time `ts` alone.
pub open spec fn grown_at(
    before: Seq<(u64, Seq<u8>)>,
    after: Seq<(u64, Seq<u8>)>,
    ts: u64,
) -> bool {
    &&& before.len() <= after.len()
    &&& forall|j: int| 0 <= j < before.len() ==> #[trigger] after[j] == before[j]
    &&& forall|j: int| before.len() <= j < after.len() ==> (#[trigger] after[j]).0 == ts
}

/// Whether both directions of a connection did.
pub open spec fn conn_grown_at(before: ConnStateView, after: ConnStateView, ts: u64) -> bool {
    grown_at(before.c2s.out, after.c2s.out, ts) && grown_at(before.s2c.out, after.s2c.out, ts)
}

proof fn lemma_payload_grows(t: DirStateView, other: DirStateView, s: SegmentView, ts: u64)
    ensures
        grown_at(t.out, payload_taken(t, other, s, ts).0.out, ts),
        grown_at(other.out, payload_taken(t, other, s, ts).1.out, ts),
{
}

proof fn lemma_conn_grows(
    seeds: Map<Route, SeedView>,
    c: ConnStateView,
    s: SegmentView,
    ts: u64,
)
    ensures
        conn_grown_at(c, conn_replayed(seeds, c, s, ts), ts),
        conn_replayed(seeds, c, s, ts).first_ts == c.first_ts,
        conn_replayed(seeds, c, s, ts).last_ts == ts,
{
    reveal(conn_replayed);
    let t = at_hand(seeds, c.saw_syn, arriving(c, s), s);
    lemma_payload_grows(t, c.s2c, s, ts);
    lemma_payload_grows(t, c.c2s, s, ts);
}

/// For every captured packet, each frame that it adds to the output of its
/// direction carries the packet's own time, and what was there stays as it is, with
/// the times it has. A connection starts at the time of its first packet and ends
/// at that of its last; a packet leaves all other connections alone.
pub proof fn law_frames_keep_the_time_of_their_packet(r: RebuilderView, frame: Seq<u8>, ts: u64)
    requires
        placed(r),
        r.conns.len() < usize::MAX,
    ensures
        ({
            let after = packet_replayed(r, frame, ts).conns;
            &&& r.conns.len() <= after.len()
            &&& forall|i: int|
                0 <= i < r.conns.len() ==> {
                    &&& conn_grown_at(r.conns[i], #[trigger] after[i], ts)
                    &&& after[i].first_ts == r.conns[i].first_ts
                    &&& after[i] == r.conns[i] || after[i].last_ts == ts
                }
            &&& forall|i: int|
                r.conns.len() <= i < after.len() ==> {
                    &&& grown_at(Seq::empty(), (#[trigger] after[i]).c2s.out, ts)
                    &&& grown_at(Seq::empty(), after[i].s2c.out, ts)
                    &&& after[i].first_ts == ts
                    &&& after[i].last_ts == ts
                }
            &&& segment_in(frame) is None ==> after == r.conns
        }),
{
    if let Some(s) = segment_in(frame) {
        let seen = RebuilderView {
            report: Report { packets_in: add64(r.report.packets_in, 1), ..r.report },
            ..r
        };
        let c = conn_for(seen, s, ts);
        lemma_conn_grows(seen.seeds, c, s, ts);
        let after = segment_replayed(seen, s, ts).conns;
        if opens_conn(seen, s) {
            assert(c.c2s.out =~= Seq::empty());
            assert(c.s2c.out =~= Seq::empty());
        } else {
            let k = r.at[key_between(seg_src(s), seg_dst(s))] as int;
            assert(after == r.conns.update(k, conn_replayed(seen.seeds, c, s, ts)));
        }
    }
}

// ---------------------------------------------------------------------------
// What leaves
// ---------------------------------------------------------------------------

/// Whether a packet carries a part of entry `k` of a stream, at that entry's time.
pub open spec fn carries_part(p: OutPktView, stream: Seq<(u64, Seq<u8>)>, k: int) -> bool {
    &&& 0 <= k < stream.len()
    &&& p.ts == stream[k].0
    &&& p.payload.len() <= stream[k].1.len()
    &&& exists|o: int|
        0 <= o <= stream[k].1.len() - p.payload.len() && p.payload
            == #[trigger] stream[k].1.subrange(o, o + p.payload.len())
}

proof fn lemma_piece_is_part(bytes: Seq<u8>, mss: nat, j: int) -> (o: int)
    requires
        0 <= j < pieces(bytes, mss).len(),
    ensures
        0 <= o <= bytes.len() - pieces(bytes, mss)[j].len(),
        pieces(bytes, mss)[j] == bytes.subrange(o, o + pieces(bytes, mss)[j].len()),
        pieces(bytes, mss)[j].len() > 0,
        mss > 0 ==> pieces(bytes, mss)[j].len() <= mss,
    decreases bytes.len(),
{
    if bytes.len() <= mss || mss == 0 {
        assert(bytes =~= bytes.subrange(0, bytes.len() as int));
        0
    } else if j == 0 {
        assert(bytes.take(mss as int) =~= bytes.subrange(0, mss as int));
        0
    } else {
        let rest = bytes.skip(mss as int);
        let o = lemma_piece_is_part(rest, mss, j - 1);
        let p = pieces(rest, mss)[j - 1];
        assert(pieces(bytes, mss)[j] == p);
        assert(rest.subrange(o, o + p.len()) =~= bytes.subrange(mss + o, mss + o + p.len()));
        mss + o
    }
}

proof fn lemma_stream_part(
    conn: usize,
    c2s: bool,
    t0: u64,
    stream: Seq<(u64, Seq<u8>)>,
    mss: nat,
    i: int,
) -> (k: int)
    requires
        0 <= i < stream_plan(conn, c2s, t0, stream, mss).len(),
        mss > 0,
    ensures
        ({
            let p = stream_plan(conn, c2s, t0, stream, mss)[i];
            &&& carries_part(p, stream, k)
            &&& p.conn == conn
            &&& p.c2s == c2s
            &&& 0 < p.payload.len() <= mss
        }),
    decreases stream.len(),
{
    let front = stream_plan(conn, c2s, t0, stream.drop_last(), mss);
    let n = stream.len() - 1;
    let p = stream_plan(conn, c2s, t0, stream, mss)[i];
    if i < front.len() {
        let k = lemma_stream_part(conn, c2s, t0, stream.drop_last(), mss, i);
        assert(stream.drop_last()[k] == stream[k]);
        k
    } else {
        let o = lemma_piece_is_part(stream.last().1, mss, i - front.len());
        assert(p.payload == stream[n].1.subrange(o, o + p.payload.len()));
        n
    }
}

proof fn lemma_conn_part(conn: usize, c: ConnStateView, mss: nat, i: int) -> (k: int)
    requires
        0 <= i < conn_plan(conn, c, mss).len(),
        mss > 0,
    ensures
        ({
            let p = conn_plan(conn, c, mss)[i];
            &&& p.conn == conn
            &&& p.payload.len() <= mss
            &&& p.payload.len() > 0 ==> carries_part(p, stream_of(c, p.c2s), k)
            &&& p.payload.len() == 0 ==> p.ts == c.first_ts || p.ts == c.last_ts
        }),
{
    let t0 = c.first_ts;
    let h = handshake(conn, t0);
    let a = stream_plan(conn, true, t0, client_stream(c), mss);
    let b = stream_plan(conn, false, t0, c.s2c.out, mss);
    if h.len() <= i < h.len() + a.len() {
        lemma_stream_part(conn, true, t0, client_stream(c), mss, i - h.len())
    } else if h.len() + a.len() <= i < h.len() + a.len() + b.len() {
        lemma_stream_part(conn, false, t0, c.s2c.out, mss, i - h.len() - a.len())
    } else {
        0
    }
}

proof fn lemma_planned_part(conns: Seq<ConnStateView>, n: int, mss: nat, i: int) -> (k: int)
    requires
        0 <= n <= conns.len(),
        n <= usize::MAX,
        0 <= i < planned(conns, n, mss).len(),
        mss > 0,
    ensures
        ({
            let p = planned(conns, n, mss)[i];
            &&& p.conn < n
            &&& p.payload.len() <= mss
            &&& p.payload.len() > 0 ==> carries_part(
                p,
                stream_of(conns[p.conn as int], p.c2s),
                k,
            )
            &&& p.payload.len() == 0 ==> p.ts == conns[p.conn as int].first_ts || p.ts
                == conns[p.conn as int].last_ts
        }),
    decreases n,
{
    let before = planned(conns, n - 1, mss);
    if i < before.len() {
        lemma_planned_part(conns, n - 1, mss, i)
    } else {
        lemma_conn_part((n - 1) as usize, conns[n - 1], mss, i - before.len())
    }
}

/// Every packet of the output has the time that it should. One that carries payload
/// carries bytes of a single frame of its direction, and is stamped with the time
/// of the captured packet that completed that frame; the preface leaves at the time
/// of the connection's first packet. One without is stamped with the time of the
/// connection's first packet or of its last. Gives the position of the frame.
pub proof fn law_packets_keep_the_time_of_their_frame(r: RebuilderView, mss: usize, i: int) -> (k:
    int)
    requires
        countable(r, mss),
        0 <= i < rebuilt_packets(r, mss).len(),
    ensures
        ({
            let p = rebuilt_plan(r, mss)[i];
            let c = r.conns[p.conn as int];
            let ts = rebuilt_packets(r, mss)[i].0;
            &&& rebuilt_packets(r, mss).len() == rebuilt_plan(r, mss).len()
            &&& p.conn < r.conns.len()
            &&& p.payload.len() <= if mss == 0 {
                1
            } else {
                mss as int
            }
            &&& p.payload.len() > 0 && p.c2s && k == 0 ==> ts == c.first_ts
            &&& p.payload.len() > 0 && p.c2s && k > 0 ==> k <= c.c2s.out.len() && ts
                == c.c2s.out[k - 1].0 && part_of(p.payload, c.c2s.out[k - 1].1)
            &&& p.payload.len() > 0 && !p.c2s ==> 0 <= k < c.s2c.out.len() && ts
                == c.s2c.out[k].0 && part_of(p.payload, c.s2c.out[k].1)
            &&& p.payload.len() == 0 ==> ts == c.first_ts || ts == c.last_ts
        }),
{
    let m: nat = if mss == 0 {
        1
    } else {
        mss as nat
    };
    let plan = whole_plan(r, mss);
    let order = slots(plan).sort_by(slot_order());
    lemma_sorted_is_permutation(slots(plan), order);
    lemma_slots_in_order(plan, i);
    let j = order[i].index as int;
    assert(rebuilt_plan(r, mss)[i] == plan[j]);
    let k = lemma_planned_part(r.conns, r.conns.len() as int, m, j);
    let p = plan[j];
    let c = r.conns[p.conn as int];
    if p.payload.len() > 0 {
        let stream = stream_of(c, p.c2s);
        let o = choose|o: int|
            0 <= o <= stream[k].1.len() - p.payload.len() && p.payload
                == #[trigger] stream[k].1.subrange(o, o + p.payload.len());
        assert(stream[k].1.subrange(o, o + p.payload.len()) == p.payload);
    }
    k
}

/// Whether `a` is a run of bytes in `b`.
pub open spec fn part_of(a: Seq<u8>, b: Seq<u8>) -> bool {
    exists|o: int| 0 <= o <= b.len() - a.len() && a == #[trigger] b.subrange(o, o + a.len())
}

} // verus!
