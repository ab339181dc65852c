//! Laws of reassembly: what comes out is the sender's stream, byte for byte and
//! at the right offsets, however the segments arrive.
use vstd::prelude::*;

use crate::bytes::{add32, add64, lemma_add32_twice, lemma_add64_twice, seq_distance};
use crate::reassembly::{
    aligned, anchored, appended, consumed, drained, first_ready, fresh_reassembler, gapped,
    held_bytes, hole_expired, hole_size, lemma_drained_step, lemma_held_bytes_remove, pushed,
    syn_noted, tail_appended, ReassemblerView,
};

verus! {

/// Whether `data` is what the sender's stream holds from offset `off` on.
pub open spec fn genuine(stream: spec_fn(int) -> u8, off: int, data: Seq<u8>) -> bool {
    forall|i: int| 0 <= i < data.len() ==> #[trigger] data[i] == stream(off + i)
}

/// Whether the state is true to the sender's stream up to offset `t`: the
/// available bytes are the ones that end there, and each held segment is the
/// part of the stream that its sequence number says.
pub open spec fn faithful(r: ReassemblerView, stream: spec_fn(int) -> u8, t: int) -> bool {
    &&& anchored_at(r, stream, t)
    &&& forall|i: int|
        0 <= i < r.ooo.len() ==> seq_distance((#[trigger] r.ooo[i]).0, r.next_seq) > 0
    &&& forall|i: int|
        0 <= i < r.ooo.len() ==> genuine(
            stream,
            t + seq_distance((#[trigger] r.ooo[i]).0, r.next_seq),
            r.ooo[i].1,
        )
}

/// The part of that which speaks of the bytes in order.
pub open spec fn anchored_at(r: ReassemblerView, stream: spec_fn(int) -> u8, t: int) -> bool {
    &&& r.initialized
    &&& r.avail.len() <= t
    &&& r.next_seq == add32(r.base_seq, t)
    &&& r.delivered_off == add64(0, t)
    &&& genuine(stream, t - r.avail.len(), r.avail)
}

/// While segments are being drained, some may have been overtaken, but none by
/// so much that its sequence number becomes ambiguous.
spec fn draining(r: ReassemblerView, stream: spec_fn(int) -> u8, t: int) -> bool {
    &&& anchored_at(r, stream, t)
    &&& forall|i: int|
        0 <= i < r.ooo.len() ==> seq_distance((#[trigger] r.ooo[i]).0, r.next_seq) >= held_bytes(
            r.ooo,
        ) - 0x8000_0000
    &&& forall|i: int|
        0 <= i < r.ooo.len() ==> genuine(
            stream,
            t + seq_distance((#[trigger] r.ooo[i]).0, r.next_seq),
            r.ooo[i].1,
        )
}

proof fn lemma_distance_shifts(s: u32, next: u32, n: int)
    requires
        0 <= n,
        seq_distance(s, next) - n >= -0x8000_0000,
    ensures
        seq_distance(s, add32(next, n)) == seq_distance(s, next) - n,
{
}

proof fn lemma_add32_shifts(base: u32, t: int, n: int)
    ensures
        add32(add32(base, t), n) == add32(base, t + n),
        add64(add64(0, t), n) == add64(0, t + n),
{
    lemma_add32_twice(base, t, n);
    lemma_add64_twice(0, t, n);
}

proof fn lemma_appended_anchored(
    r: ReassemblerView,
    stream: spec_fn(int) -> u8,
    t: int,
    data: Seq<u8>,
)
    requires
        anchored_at(r, stream, t),
        genuine(stream, t, data),
    ensures
        anchored_at(appended(r, data), stream, t + data.len()),
{
    lemma_add32_shifts(r.base_seq, t, data.len() as int);
    let all = r.avail + data;
    assert forall|i: int| 0 <= i < all.len() implies #[trigger] all[i] == stream(
        t - r.avail.len() + i,
    ) by {
        if i < r.avail.len() {
            assert(all[i] == r.avail[i]);
        } else {
            assert(all[i] == data[i - r.avail.len()]);
        }
    }
}

proof fn lemma_first_ready(ooo: Seq<(u32, Seq<u8>)>, next: u32, i: int)
    requires
        0 <= i <= ooo.len(),
    ensures
        ({
            let k = first_ready(ooo, next, i);
            &&& i <= k <= ooo.len()
            &&& k < ooo.len() ==> seq_distance(ooo[k].0, next) <= 0
            &&& forall|j: int| i <= j < k ==> seq_distance((#[trigger] ooo[j]).0, next) > 0
        }),
    decreases ooo.len() - i,
{
    if i < ooo.len() && seq_distance(ooo[i].0, next) > 0 {
        lemma_first_ready(ooo, next, i + 1);
    }
}

proof fn lemma_taken_draining(
    r: ReassemblerView,
    stream: spec_fn(int) -> u8,
    t: int,
    i: int,
) -> (t2: int)
    requires
        draining(r, stream, t),
        0 <= i < r.ooo.len(),
        seq_distance(r.ooo[i].0, r.next_seq) <= 0,
    ensures
        t2 >= t,
        draining(
            tail_appended(
                ReassemblerView { ooo: r.ooo.remove(i), ..r },
                r.ooo[i].1,
                -seq_distance(r.ooo[i].0, r.next_seq),
            ),
            stream,
            t2,
        ),
{
    let behind = -seq_distance(r.ooo[i].0, r.next_seq);
    let data = r.ooo[i].1;
    let rest = ReassemblerView { ooo: r.ooo.remove(i), ..r };
    lemma_held_bytes_remove(r.ooo, i);
    assert(genuine(stream, t + seq_distance(r.ooo[i].0, r.next_seq), data));
    let n = if behind < data.len() {
        data.len() - behind
    } else {
        0
    };
    let after = tail_appended(rest, data, behind);
    if behind < data.len() {
        let tail = data.skip(behind);
        assert forall|j: int| 0 <= j < tail.len() implies #[trigger] tail[j] == stream(t + j) by {
            assert(tail[j] == data[behind + j]);
        }
        assert(anchored_at(rest, stream, t));
        lemma_appended_anchored(rest, stream, t, tail);
    }
    assert(after.next_seq == add32(r.next_seq, n));
    assert forall|j: int| 0 <= j < after.ooo.len() implies seq_distance(
        (#[trigger] after.ooo[j]).0,
        after.next_seq,
    ) >= held_bytes(after.ooo) - 0x8000_0000 && genuine(
        stream,
        t + n + seq_distance(after.ooo[j].0, after.next_seq),
        after.ooo[j].1,
    ) by {
        let k = if j < i {
            j
        } else {
            j + 1
        };
        assert(after.ooo[j] == r.ooo[k]);
        lemma_distance_shifts(r.ooo[k].0, r.next_seq, n);
    }
    t + n
}

proof fn lemma_drained_faithful(r: ReassemblerView, stream: spec_fn(int) -> u8, t: int) -> (t2:
    int)
    requires
        draining(r, stream, t),
    ensures
        t2 >= t,
        faithful(drained(r), stream, t2),
        r.avail.is_prefix_of(drained(r).avail),
    decreases r.ooo.len(),
{
    lemma_drained_step(r);
    lemma_first_ready(r.ooo, r.next_seq, 0);
    let i = first_ready(r.ooo, r.next_seq, 0);
    if i < r.ooo.len() {
        let t1 = lemma_taken_draining(r, stream, t, i);
        let after = tail_appended(
            ReassemblerView { ooo: r.ooo.remove(i), ..r },
            r.ooo[i].1,
            -seq_distance(r.ooo[i].0, r.next_seq),
        );
        assert(r.avail.is_prefix_of(after.avail));
        lemma_drained_faithful(after, stream, t1)
    } else {
        t
    }
}

/// Once the first byte's sequence number is known, by a SYN or from the first
/// segment, the state is true to every stream that starts there.
pub proof fn law_stream_starts_at_its_first_byte(
    r: ReassemblerView,
    stream: spec_fn(int) -> u8,
    seq: u32,
)
    requires
        aligned(r),
        !r.initialized,
    ensures
        faithful(anchored(r, seq), stream, 0),
        faithful(syn_noted(r, seq), stream, 0),
        syn_noted(r, seq).base_seq == add32(seq, 1),
{
}

/// A segment of the sender's stream, in order or not, new or sent again, leaves
/// the state true to the stream, up to an offset that never moves back; and
/// unless a gap was declared, no available byte is lost. The segment has to lie
/// within half the sequence space of the expected byte, as TCP ensures, and so
/// have the held segments together.
pub proof fn law_push_is_faithful(
    r: ReassemblerView,
    stream: spec_fn(int) -> u8,
    t: int,
    seq: u32,
    data: Seq<u8>,
    now_us: u64,
) -> (t2: int)
    requires
        faithful(r, stream, t),
        genuine(stream, t + seq_distance(seq, r.next_seq), data),
        held_bytes(r.ooo) + data.len() <= 0x8000_0000,
    ensures
        t2 >= t,
        faithful(pushed(r, seq, data, now_us).0, stream, t2),
        !pushed(r, seq, data, now_us).1 ==> r.avail.is_prefix_of(
            pushed(r, seq, data, now_us).0.avail,
        ),
{
    let ahead = seq_distance(seq, r.next_seq);
    if data.len() == 0 || (ahead <= 0 && -ahead >= data.len()) {
        t
    } else if ahead <= 0 {
        let tail = data.skip(-ahead);
        assert forall|j: int| 0 <= j < tail.len() implies #[trigger] tail[j] == stream(t + j) by {
            assert(tail[j] == data[-ahead + j]);
        }
        lemma_appended_anchored(r, stream, t, tail);
        let after = appended(r, tail);
        assert forall|j: int| 0 <= j < after.ooo.len() implies seq_distance(
            (#[trigger] after.ooo[j]).0,
            after.next_seq,
        ) >= held_bytes(after.ooo) - 0x8000_0000 && genuine(
            stream,
            t + tail.len() + seq_distance(after.ooo[j].0, after.next_seq),
            after.ooo[j].1,
        ) by {
            assert(after.ooo[j] == r.ooo[j]);
            lemma_distance_shifts(r.ooo[j].0, r.next_seq, tail.len() as int);
        }
        assert(r.avail.is_prefix_of(after.avail));
        lemma_drained_faithful(after, stream, t + tail.len())
    } else {
        let held = ReassemblerView {
            ooo: r.ooo.push((seq, data)),
            ooo_since_us: Some(
                match r.ooo_since_us {
                    Some(s) => s,
                    None => now_us,
                },
            ),
            ..r
        };
        assert(held.ooo.drop_last() =~= r.ooo);
        assert(faithful(held, stream, t)) by {
            assert forall|j: int| 0 <= j < held.ooo.len() implies seq_distance(
                (#[trigger] held.ooo[j]).0,
                held.next_seq,
            ) > 0 && genuine(
                stream,
                t + seq_distance(held.ooo[j].0, held.next_seq),
                held.ooo[j].1,
            ) by {
                if j < r.ooo.len() {
                    assert(held.ooo[j] == r.ooo[j]);
                }
            }
        }
        if held_bytes(held.ooo) > r.ooo_limit {
            law_gap_is_faithful(held, stream, t)
        } else {
            t
        }
    }
}

proof fn lemma_hole_size(ooo: Seq<(u32, Seq<u8>)>, next: u32)
    requires
        forall|i: int| 0 <= i < ooo.len() ==> seq_distance((#[trigger] ooo[i]).0, next) > 0,
    ensures
        hole_size(ooo, next) >= 0,
        forall|i: int|
            0 <= i < ooo.len() ==> seq_distance((#[trigger] ooo[i]).0, next) >= hole_size(
                ooo,
                next,
            ),
    decreases ooo.len(),
{
    if ooo.len() > 0 {
        let p = ooo.drop_last();
        assert forall|i: int| 0 <= i < p.len() implies seq_distance((#[trigger] p[i]).0, next)
            > 0 by {
            assert(p[i] == ooo[i]);
        }
        lemma_hole_size(p, next);
        assert forall|i: int| 0 <= i < ooo.len() implies seq_distance((#[trigger] ooo[i]).0, next)
            >= hole_size(ooo, next) by {
            if i < p.len() {
                assert(p[i] == ooo[i]);
            }
        }
    }
}

/// Giving up on a hole loses the bytes in it and what was pending before it, and
/// nothing else: the state is true to the stream from the far side of the hole.
pub proof fn law_gap_is_faithful(r: ReassemblerView, stream: spec_fn(int) -> u8, t: int) -> (t2:
    int)
    requires
        faithful(r, stream, t),
        held_bytes(r.ooo) <= 0x8000_0000,
    ensures
        t2 >= t,
        faithful(gapped(r), stream, t2),
        gapped(r).gaps == add64(r.gaps, 1),
{
    let hole = hole_size(r.ooo, r.next_seq);
    lemma_hole_size(r.ooo, r.next_seq);
    lemma_add32_shifts(r.base_seq, t, hole);
    let after = ReassemblerView {
        gaps: add64(r.gaps, 1),
        next_seq: add32(r.next_seq, hole),
        delivered_off: add64(r.delivered_off, hole),
        avail: Seq::empty(),
        buf_off: add64(r.delivered_off, hole),
        ..r
    };
    assert forall|j: int| 0 <= j < after.ooo.len() implies seq_distance(
        (#[trigger] after.ooo[j]).0,
        after.next_seq,
    ) >= held_bytes(after.ooo) - 0x8000_0000 && genuine(
        stream,
        t + hole + seq_distance(after.ooo[j].0, after.next_seq),
        after.ooo[j].1,
    ) by {
        assert(after.ooo[j] == r.ooo[j]);
        lemma_distance_shifts(r.ooo[j].0, r.next_seq, hole);
    }
    lemma_drained_keeps_gaps(after);
    lemma_drained_faithful(after, stream, t + hole)
}

proof fn lemma_drained_keeps_gaps(r: ReassemblerView)
    ensures
        drained(r).gaps == r.gaps,
    decreases r.ooo.len(),
{
    lemma_drained_step(r);
    lemma_first_ready(r.ooo, r.next_seq, 0);
    let i = first_ready(r.ooo, r.next_seq, 0);
    if i < r.ooo.len() {
        lemma_drained_keeps_gaps(
            tail_appended(
                ReassemblerView { ooo: r.ooo.remove(i), ..r },
                r.ooo[i].1,
                -seq_distance(r.ooo[i].0, r.next_seq),
            ),
        );
    }
}

/// Consuming bytes leaves the state true to the stream up to the same offset.
pub proof fn law_consume_is_faithful(
    r: ReassemblerView,
    stream: spec_fn(int) -> u8,
    t: int,
    n: int,
)
    requires
        faithful(r, stream, t),
        n >= 0,
    ensures
        faithful(consumed(r, n), stream, t),
{
    let c = consumed(r, n);
    let k = r.avail.len() - c.avail.len();
    assert forall|i: int| 0 <= i < c.avail.len() implies #[trigger] c.avail[i] == stream(
        t - c.avail.len() + i,
    ) by {
        assert(c.avail[i] == r.avail[k + i]);
    }
}

/// Offsets and sequence numbers stay together, across any number of wraps: the
/// first unconsumed byte is the stream's byte at offset `t - available`, its
/// recorded offset is that one, and its sequence number is that far from the
/// base.
pub proof fn law_offsets_survive_wrap(r: ReassemblerView, stream: spec_fn(int) -> u8, t: int)
    requires
        faithful(r, stream, t),
        aligned(r),
    ensures
        r.buf_off == add64(0, t - r.avail.len()),
        add32(r.base_seq, r.buf_off as int) == add32(r.base_seq, t - r.avail.len()),
        r.avail.len() > 0 ==> r.avail[0] == stream(t - r.avail.len()),
{
    let w = 0x1_0000_0000_0000_0000int;
    let n = r.avail.len() as int;
    assert(r.buf_off == (t - n) % w) by (nonlinear_arith)
        requires
            (r.buf_off + n) % w == t % w,
            0 <= r.buf_off < w,
            w == 0x1_0000_0000_0000_0000int,
    ;
    assert((r.base_seq + (t - n) % w) % 0x1_0000_0000 == (r.base_seq + (t - n)) % 0x1_0000_0000)
        by (nonlinear_arith)
        requires
            w == 0x1_0000_0000_0000_0000int,
    ;
}

/// Whether a hole is being timed exactly while there is one.
pub open spec fn timed(r: ReassemblerView) -> bool {
    r.ooo_since_us is Some <==> r.ooo.len() > 0
}

proof fn lemma_drained_timed(r: ReassemblerView)
    requires
        r.ooo.len() > 0 ==> r.ooo_since_us is Some,
    ensures
        timed(drained(r)),
    decreases r.ooo.len(),
{
    lemma_drained_step(r);
    let i = first_ready(r.ooo, r.next_seq, 0);
    if 0 <= i < r.ooo.len() {
        let rest = ReassemblerView { ooo: r.ooo.remove(i), ..r };
        lemma_drained_timed(
            tail_appended(rest, r.ooo[i].1, -seq_distance(r.ooo[i].0, r.next_seq)),
        );
    }
}

/// Every hole is timed until it is filled or given up, however many there are: a
/// hole that never fills becomes a declared gap once it has been open for too
/// long, rather than stalling the direction.
pub proof fn law_every_hole_is_timed(
    r: ReassemblerView,
    seq: u32,
    data: Seq<u8>,
    now_us: u64,
    n: int,
)
    requires
        timed(r),
    ensures
        timed(fresh_reassembler()),
        timed(syn_noted(r, seq)),
        timed(pushed(r, seq, data, now_us).0),
        timed(consumed(r, n)),
        timed(gapped(r)),
        r.ooo.len() > 0 && now_us - r.ooo_since_us->Some_0 > r.ooo_timeout_us
            ==> hole_expired(r, now_us),
{
    let hole = hole_size(r.ooo, r.next_seq);
    lemma_drained_timed(
        ReassemblerView {
            gaps: add64(r.gaps, 1),
            next_seq: add32(r.next_seq, hole),
            delivered_off: add64(r.delivered_off, hole),
            avail: Seq::empty(),
            buf_off: add64(r.delivered_off, hole),
            ..r
        },
    );
    let a = anchored(r, seq);
    let ahead = seq_distance(seq, a.next_seq);
    if data.len() > 0 {
        if ahead <= 0 {
            lemma_drained_timed(tail_appended(a, data, -ahead));
        } else {
            let held = ReassemblerView {
                ooo: a.ooo.push((seq, data)),
                ooo_since_us: Some(
                    match a.ooo_since_us {
                        Some(t) => t,
                        None => now_us,
                    },
                ),
                ..a
            };
            let h = hole_size(held.ooo, held.next_seq);
            lemma_drained_timed(
                ReassemblerView {
                    gaps: add64(held.gaps, 1),
                    next_seq: add32(held.next_seq, h),
                    delivered_off: add64(held.delivered_off, h),
                    avail: Seq::empty(),
                    buf_off: add64(held.delivered_off, h),
                    ..held
                },
            );
        }
    }
}

} // verus!
