//! Where unconsumed bytes come from: the segments that carried them, and when
//! those arrived.
use vstd::prelude::*;

use crate::bytes::{add32, add64, lemma_add32_twice, lemma_add64_twice, seq_distance};
use crate::reassembly::{
    aligned, anchored, appended, consumed, drained, first_ready, gapped, hole_size,
    lemma_drained_step, lemma_seq_follows_offset, pushed, tail_appended, ReassemblerView,
};

verus! {

/// A segment as it arrived.
#[verifier::ext_equal]
pub struct Arrival {
    pub at_us: u64,
    pub seq: u32,
    pub data: Seq<u8>,
}

/// Whether the segment carried byte `b` at sequence number `q`.
pub open spec fn carries(a: Arrival, q: u32, b: u8) -> bool {
    exists|j: int| 0 <= j < a.data.len() && add32(a.seq, j) == q && #[trigger] a.data[j] == b
}

/// Whether a segment that arrived at `since` or later carried that byte.
pub open spec fn carried(h: Seq<Arrival>, since: u64, q: u32, b: u8) -> bool {
    exists|k: int| 0 <= k < h.len() && h[k].at_us >= since && #[trigger] carries(h[k], q, b)
}

/// Whether this segment arrived at `since` or later.
pub open spec fn received(h: Seq<Arrival>, since: u64, seq: u32, data: Seq<u8>) -> bool {
    exists|k: int|
        0 <= k < h.len() && (#[trigger] h[k]).at_us >= since && h[k].seq == seq && h[k].data == data
}

/// Sequence number of the first unconsumed byte.
pub open spec fn first_seq(r: ReassemblerView) -> u32 {
    add32(r.base_seq, r.buf_off as int)
}

/// Whether every byte that is not consumed yet came with a segment that arrived
/// at `since` or later, at the sequence number it stands for.
pub open spec fn supplied(r: ReassemblerView, h: Seq<Arrival>, since: u64) -> bool {
    &&& forall|i: int|
        0 <= i < r.avail.len() ==> carried(h, since, add32(first_seq(r), i), #[trigger] r.avail[i])
    &&& forall|i: int|
        0 <= i < r.ooo.len() ==> received(h, since, (#[trigger] r.ooo[i]).0, r.ooo[i].1)
}

proof fn lemma_next_follows(r: ReassemblerView)
    requires
        aligned(r),
    ensures
        r.next_seq == add32(first_seq(r), r.avail.len() as int),
{
    lemma_seq_follows_offset(r.base_seq, r.buf_off, r.avail.len() as int);
}

proof fn lemma_appended_aligned(r: ReassemblerView, data: Seq<u8>)
    requires
        aligned(r),
        r.initialized,
    ensures
        aligned(appended(r, data)),
{
    let n = data.len() as int;
    lemma_add64_twice(r.buf_off, r.avail.len() as int, n);
    lemma_seq_follows_offset(r.base_seq, r.delivered_off, n);
    assert((r.avail + data).len() == r.avail.len() + n);
}

/// A number that lies `behind` ahead of `x` is `x` plus that much.
proof fn lemma_behind(x: u32, next: u32, behind: int)
    requires
        behind == -seq_distance(x, next),
    ensures
        next == add32(x, behind),
{
}

proof fn lemma_tail_supplied(
    r: ReassemblerView,
    h: Seq<Arrival>,
    since: u64,
    seq: u32,
    data: Seq<u8>,
)
    requires
        aligned(r),
        r.initialized,
        supplied(r, h, since),
        received(h, since, seq, data),
        seq_distance(seq, r.next_seq) <= 0,
    ensures
        ({
            let a = tail_appended(r, data, -seq_distance(seq, r.next_seq));
            supplied(a, h, since) && aligned(a) && a.initialized && a.ooo == r.ooo
        }),
{
    let behind = -seq_distance(seq, r.next_seq);
    let a = tail_appended(r, data, behind);
    if behind < data.len() {
        lemma_appended_aligned(r, data.skip(behind));
        lemma_next_follows(r);
        lemma_behind(seq, r.next_seq, behind);
        let k = choose|k: int|
            0 <= k < h.len() && (#[trigger] h[k]).at_us >= since && h[k].seq == seq && h[k].data
                == data;
        let n = r.avail.len() as int;
        assert forall|i: int| 0 <= i < a.avail.len() implies carried(
            h,
            since,
            add32(first_seq(a), i),
            #[trigger] a.avail[i],
        ) by {
            if i < n {
                assert(a.avail[i] == r.avail[i]);
            } else {
                let j = behind + (i - n);
                assert(a.avail[i] == data[j]);
                lemma_add32_twice(first_seq(r), n, i - n);
                lemma_add32_twice(seq, behind, i - n);
                assert(h[k].data[j] == a.avail[i]);
                assert(carries(h[k], add32(first_seq(a), i), a.avail[i]));
            }
        }
    }
}

proof fn lemma_drained_supplied(r: ReassemblerView, h: Seq<Arrival>, since: u64)
    requires
        aligned(r),
        supplied(r, h, since),
    ensures
        supplied(drained(r), h, since),
        aligned(drained(r)),
    decreases r.ooo.len(),
{
    lemma_drained_step(r);
    let i = first_ready(r.ooo, r.next_seq, 0);
    if 0 <= i < r.ooo.len() {
        lemma_first_ready_is_ready(r.ooo, r.next_seq, 0);
        let rest = ReassemblerView { ooo: r.ooo.remove(i), ..r };
        assert forall|j: int| 0 <= j < rest.ooo.len() implies received(
            h,
            since,
            (#[trigger] rest.ooo[j]).0,
            rest.ooo[j].1,
        ) by {
            assert(rest.ooo[j] == r.ooo[if j < i {
                j
            } else {
                j + 1
            }]);
        }
        assert(supplied(rest, h, since)) by {
            assert forall|j: int| 0 <= j < rest.avail.len() implies carried(
                h,
                since,
                add32(first_seq(rest), j),
                #[trigger] rest.avail[j],
            ) by {
                assert(rest.avail[j] == r.avail[j]);
            }
        }
        lemma_tail_supplied(rest, h, since, r.ooo[i].0, r.ooo[i].1);
        lemma_drained_supplied(
            tail_appended(rest, r.ooo[i].1, -seq_distance(r.ooo[i].0, r.next_seq)),
            h,
            since,
        );
    }
}

proof fn lemma_first_ready_is_ready(ooo: Seq<(u32, Seq<u8>)>, next: u32, i: int)
    requires
        0 <= i,
    ensures
        ({
            let k = first_ready(ooo, next, i);
            0 <= k < ooo.len() ==> seq_distance(ooo[k].0, next) <= 0
        }),
    decreases ooo.len() - i,
{
    if i < ooo.len() && seq_distance(ooo[i].0, next) > 0 {
        lemma_first_ready_is_ready(ooo, next, i + 1);
    }
}

/// Whether the state is in order and every byte in it is accounted for.
#[verifier::opaque]
pub open spec fn backed(r: ReassemblerView, h: Seq<Arrival>, since: u64) -> bool {
    aligned(r) && supplied(r, h, since)
}

/// Where nothing is unconsumed, there is nothing to account for; and only there
/// no segment is needed.
pub proof fn lemma_backed_by_nothing(r: ReassemblerView, h: Seq<Arrival>, since: u64)
    requires
        aligned(r),
    ensures
        r.avail.len() == 0 && r.ooo.len() == 0 ==> backed(r, h, since),
        backed(r, Seq::empty(), since) ==> r.avail.len() == 0 && r.ooo.len() == 0,
{
    reveal(backed);
    if backed(r, Seq::empty(), since) {
        if r.avail.len() > 0 {
            assert(carried(Seq::empty(), since, add32(first_seq(r), 0), r.avail[0]));
        }
        if r.ooo.len() > 0 {
            assert(received(Seq::empty(), since, r.ooo[0].0, r.ooo[0].1));
        }
    }
}

/// Giving up on a hole leaves bytes of held segments and no others.
pub proof fn lemma_gapped_backed(r: ReassemblerView, h: Seq<Arrival>, since: u64)
    requires
        backed(r, h, since),
    ensures
        backed(gapped(r), h, since),
{
    reveal(backed);
    let hole = hole_size(r.ooo, r.next_seq);
    let jumped = ReassemblerView {
        gaps: add64(r.gaps, 1),
        next_seq: add32(r.next_seq, hole),
        delivered_off: add64(r.delivered_off, hole),
        avail: Seq::empty(),
        buf_off: add64(r.delivered_off, hole),
        ..r
    };
    lemma_seq_follows_offset(r.base_seq, r.delivered_off, hole);
    assert(aligned(jumped));
    lemma_drained_supplied(jumped, h, since);
}

/// Taking in a segment that has arrived leaves bytes of that segment, and of
/// those that were there before, and no others.
pub proof fn lemma_pushed_backed(
    r: ReassemblerView,
    h: Seq<Arrival>,
    since: u64,
    seq: u32,
    data: Seq<u8>,
    now_us: u64,
)
    requires
        backed(r, h, since),
        received(h, since, seq, data),
    ensures
        backed(pushed(r, seq, data, now_us).0, h, since),
{
    reveal(backed);
    if data.len() > 0 {
        let a = anchored(r, seq);
        assert(aligned(a));
        assert(supplied(a, h, since)) by {
            if r.initialized {
                assert(a == r);
            }
        }
        let ahead = seq_distance(seq, a.next_seq);
        if ahead <= 0 {
            if -ahead < data.len() {
                lemma_tail_supplied(a, h, since, seq, data);
                lemma_drained_supplied(tail_appended(a, data, -ahead), h, since);
            }
        } else {
            let held = ReassemblerView {
                ooo: a.ooo.push((seq, data)),
                ooo_since_us: Some(
                    match a.ooo_since_us {
                        Some(t) => t,
                        None => now_us,
                    },
                ),
                ..a
            };
            assert forall|j: int| 0 <= j < held.ooo.len() implies received(
                h,
                since,
                (#[trigger] held.ooo[j]).0,
                held.ooo[j].1,
            ) by {
                if j < a.ooo.len() {
                    assert(held.ooo[j] == a.ooo[j]);
                }
            }
            assert forall|j: int| 0 <= j < held.avail.len() implies carried(
                h,
                since,
                add32(first_seq(held), j),
                #[trigger] held.avail[j],
            ) by {
                assert(held.avail[j] == a.avail[j]);
            }
            lemma_gapped_backed(held, h, since);
        }
    }
}

/// Consuming leaves the rest as it was.
pub proof fn lemma_consumed_backed(r: ReassemblerView, h: Seq<Arrival>, since: u64, n: int)
    requires
        backed(r, h, since),
        0 <= n,
    ensures
        backed(consumed(r, n), h, since),
{
    reveal(backed);
    let k = if n < r.avail.len() {
        n
    } else {
        r.avail.len() as int
    };
    let c = consumed(r, n);
    lemma_seq_follows_offset(r.base_seq, r.buf_off, k);
    lemma_add64_twice(r.buf_off, k, r.avail.len() - k);
    assert forall|i: int| 0 <= i < c.avail.len() implies carried(
        h,
        since,
        add32(first_seq(c), i),
        #[trigger] c.avail[i],
    ) by {
        assert(c.avail[i] == r.avail[k + i]);
        lemma_add32_twice(first_seq(r), k, i);
    }
}

/// More arrivals take nothing away, and neither does an earlier point in time.
pub proof fn lemma_backed_grows(
    r: ReassemblerView,
    h: Seq<Arrival>,
    since: u64,
    g: Seq<Arrival>,
    before: u64,
)
    requires
        backed(r, h, since),
        before <= since,
        h.len() <= g.len(),
        forall|k: int| 0 <= k < h.len() ==> h[k] == #[trigger] g[k],
    ensures
        backed(r, g, before),
{
    reveal(backed);
    assert forall|i: int| 0 <= i < r.avail.len() implies carried(
        g,
        before,
        add32(first_seq(r), i),
        #[trigger] r.avail[i],
    ) by {
        let q = add32(first_seq(r), i);
        let k = choose|k: int|
            0 <= k < h.len() && h[k].at_us >= since && #[trigger] carries(h[k], q, r.avail[i]);
        assert(g[k] == h[k]);
        assert(carries(g[k], q, r.avail[i]));
    }
    assert forall|i: int| 0 <= i < r.ooo.len() implies received(
        g,
        before,
        (#[trigger] r.ooo[i]).0,
        r.ooo[i].1,
    ) by {
        let k = choose|k: int|
            0 <= k < h.len() && (#[trigger] h[k]).at_us >= since && h[k].seq == r.ooo[i].0
                && h[k].data == r.ooo[i].1;
        assert(g[k] == h[k]);
    }
}

} // verus!
