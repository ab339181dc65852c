//! Laws of the synthesized packets: each connection's packets leave in causal
//! order, and each direction carries its stream whole, with sequence numbers
//! that follow it.
use vstd::prelude::*;
use vstd::relations::sorted_by;
use vstd::seq_lib::{group_to_multiset_ensures, lemma_sorted_unique, to_multiset_build};

use crate::bytes::{add32, lemma_add32_twice};
use crate::rebuild::order::{lemma_slot_order, lemma_sorted_is_permutation, slot_order, Slot};
use crate::rebuild::replay::{ConnStateView, RebuilderView};
use crate::rebuild::synth::{
    advance, carrying, client_stream, conn_plan, due_after, endpoint_for, first_seq, handshake, in_time_order,
    lemma_planned_conns, next_seq, picked, pieces, planned, rebuilt_plan, sent_before, slots,
    stream_plan, OutPktView,
};

verus! {

// ---------------------------------------------------------------------------
// Causal order
// ---------------------------------------------------------------------------

/// Whether packets of one connection are due in causal order: what belongs to a
/// later phase is not due before what belongs to an earlier one, and within a
/// direction nothing is due before what was planned before it.
pub open spec fn orderly(plan: Seq<OutPktView>) -> bool {
    &&& forall|i: int, j: int|
        0 <= i < plan.len() && 0 <= j < plan.len() && #[trigger] plan[i].conn
            == #[trigger] plan[j].conn && plan[i].phase < plan[j].phase ==> plan[i].due
            <= plan[j].due
    &&& forall|i: int, j: int|
        0 <= i < j < plan.len() && #[trigger] plan[i].conn == #[trigger] plan[j].conn
            && plan[i].c2s == plan[j].c2s ==> plan[i].due <= plan[j].due && plan[i].phase
            <= plan[j].phase
}

/// What is known of the packets of a stream.
proof fn lemma_stream_plan(
    conn: usize,
    c2s: bool,
    t0: u64,
    stream: Seq<(u64, Seq<u8>)>,
    mss: nat,
)
    ensures
        ({
            let plan = stream_plan(conn, c2s, t0, stream, mss);
            &&& t0 <= due_after(t0, stream)
            &&& forall|j: int|
                0 <= j < plan.len() ==> {
                    &&& (#[trigger] plan[j]).conn == conn
                    &&& plan[j].c2s == c2s
                    &&& plan[j].phase == 1
                    &&& t0 <= plan[j].due <= due_after(t0, stream)
                }
            &&& forall|i: int, j: int|
                0 <= i < j < plan.len() ==> (#[trigger] plan[i]).due <= (#[trigger] plan[j]).due
        }),
    decreases stream.len(),
{
    if stream.len() > 0 {
        lemma_stream_plan(conn, c2s, t0, stream.drop_last(), mss);
        let before = stream_plan(conn, c2s, t0, stream.drop_last(), mss);
        let plan = stream_plan(conn, c2s, t0, stream, mss);
        assert forall|j: int| 0 <= j < plan.len() implies {
            &&& (#[trigger] plan[j]).conn == conn
            &&& plan[j].c2s == c2s
            &&& plan[j].phase == 1
            &&& t0 <= plan[j].due <= due_after(t0, stream)
            &&& j >= before.len() ==> plan[j].due == due_after(t0, stream)
        } by {
            if j < before.len() {
                assert(plan[j] == before[j]);
            }
        }
        assert forall|i: int, j: int| 0 <= i < j < plan.len() implies (#[trigger] plan[i]).due <= (
        #[trigger] plan[j]).due by {
            if j < before.len() {
                assert(plan[i] == before[i]);
                assert(plan[j] == before[j]);
            }
        }
    }
}

/// The four parts of a connection's packets, and what is known of each.
proof fn lemma_conn_plan(conn: usize, c: ConnStateView, mss: nat)
    ensures
        orderly(conn_plan(conn, c, mss)),
        forall|j: int|
            0 <= j < conn_plan(conn, c, mss).len() ==> (#[trigger] conn_plan(
                conn,
                c,
                mss,
            )[j]).conn == conn,
{
    let t0 = c.first_ts;
    let plan = conn_plan(conn, c, mss);
    let h = handshake(conn, t0);
    let a = stream_plan(conn, true, t0, client_stream(c), mss);
    let b = stream_plan(conn, false, t0, c.s2c.out, mss);
    lemma_stream_plan(conn, true, t0, client_stream(c), mss);
    lemma_stream_plan(conn, false, t0, c.s2c.out, mss);
    let x = h.len() + a.len();
    let y = x + b.len();
    assert forall|j: int| 0 <= j < plan.len() implies {
        &&& (#[trigger] plan[j]).conn == conn
        &&& j < 3 ==> plan[j].phase == 0 && plan[j].due == t0
        &&& 3 <= j < x ==> plan[j] == a[j - 3]
        &&& x <= j < y ==> plan[j] == b[j - x]
        &&& y <= j ==> plan[j].phase == 2 && plan[j].due == plan.last().due
        &&& plan[j].due <= plan.last().due
        &&& t0 <= plan[j].due
    } by {
        if j < 3 {
            assert(plan[j] == h[j]);
        }
    }
    assert forall|i: int, j: int|
        0 <= i < plan.len() && 0 <= j < plan.len() && #[trigger] plan[i].conn
            == #[trigger] plan[j].conn && plan[i].phase < plan[j].phase implies plan[i].due
        <= plan[j].due by {}
    assert forall|i: int, j: int|
        0 <= i < j < plan.len() && #[trigger] plan[i].conn == #[trigger] plan[j].conn
            && plan[i].c2s == plan[j].c2s implies plan[i].due <= plan[j].due && plan[i].phase
        <= plan[j].phase by {
        if 3 <= i && j < x {
            assert(plan[i] == a[i - 3] && plan[j] == a[j - 3]);
        } else if x <= i && j < y {
            assert(plan[i] == b[i - x] && plan[j] == b[j - x]);
        }
    }
}

/// All packets are planned in causal order.
proof fn lemma_planned_orderly(
    conns: Seq<ConnStateView>,
    n: int,
    mss: nat,
)
    requires
        0 <= n <= usize::MAX,
    ensures
        orderly(planned(conns, n, mss)),
    decreases n,
{
    if n > 0 {
        let before = planned(conns, n - 1, mss);
        let conn = (n - 1) as usize;
        let mine = conn_plan(conn, conns[n - 1], mss);
        let all = planned(conns, n, mss);
        lemma_planned_orderly(conns, n - 1, mss);
        lemma_planned_conns(conns, n - 1, mss);
        lemma_conn_plan(conn, conns[n - 1], mss);
        let k = before.len() as int;
        assert forall|j: int| 0 <= j < all.len() implies {
            &&& j < k ==> #[trigger] all[j] == before[j] && all[j].conn != conn
            &&& j >= k ==> all[j] == mine[j - k] && all[j].conn == conn
        } by {}
        assert forall|i: int, j: int|
            0 <= i < all.len() && 0 <= j < all.len() && #[trigger] all[i].conn
                == #[trigger] all[j].conn && all[i].phase < all[j].phase implies all[i].due
            <= all[j].due by {
            if i < k {
                assert(before[i].conn == before[j].conn);
            } else {
                assert(mine[i - k].conn == mine[j - k].conn);
            }
        }
        assert forall|i: int, j: int|
            0 <= i < j < all.len() && #[trigger] all[i].conn == #[trigger] all[j].conn
                && all[i].c2s == all[j].c2s implies all[i].due <= all[j].due && all[i].phase
            <= all[j].phase by {
            if i < k {
                assert(before[i].conn == before[j].conn);
            } else {
                assert(mine[i - k].conn == mine[j - k].conn);
            }
        }
    }
}

/// The plan of a rebuilt capture, before it is put in order of time.
pub open spec fn whole_plan(r: RebuilderView, mss: usize) -> Seq<OutPktView> {
    planned(
        r.conns,
        r.conns.len() as int,
        if mss == 0 {
            1
        } else {
            mss as nat
        },
    )
}

/// Whether a rebuild fits this machine: there are no more connections and
/// packets than it can count.
pub open spec fn countable(r: RebuilderView, mss: usize) -> bool {
    r.conns.len() <= usize::MAX && whole_plan(r, mss).len() <= usize::MAX
}

pub proof fn lemma_slots_in_order(plan: Seq<OutPktView>, i: int)
    requires
        plan.len() <= usize::MAX,
        0 <= i < plan.len(),
    ensures
        ({
            let order = slots(plan).sort_by(slot_order());
            &&& order.len() == plan.len()
            &&& 0 <= order[i].index < plan.len()
            &&& order[i].due == plan[order[i].index as int].due
            &&& order[i].phase == plan[order[i].index as int].phase
            &&& in_time_order(plan)[i] == plan[order[i].index as int]
        }),
{
    let order = slots(plan).sort_by(slot_order());
    lemma_sorted_is_permutation(slots(plan), order);
    assert(slots(plan).contains(order[i]));
    let j = slots(plan).index_of(order[i]);
    assert(slots(plan)[j].index == j);
}

/// Each connection's packets leave in causal order, whatever the timestamps in
/// the capture: the handshake before all else and the teardown after it.
pub proof fn law_connections_leave_in_causal_order(r: RebuilderView, mss: usize, a: int, b: int)
    requires
        countable(r, mss),
        0 <= a < b < rebuilt_plan(r, mss).len(),
        rebuilt_plan(r, mss)[a].conn == rebuilt_plan(r, mss)[b].conn,
    ensures
        rebuilt_plan(r, mss)[a].phase <= rebuilt_plan(r, mss)[b].phase,
{
    let plan = whole_plan(r, mss);
    let order = slots(plan).sort_by(slot_order());
    let m: nat = if mss == 0 {
        1
    } else {
        mss as nat
    };
    lemma_planned_orderly(r.conns, r.conns.len() as int, m);
    lemma_sorted_is_permutation(slots(plan), order);
    lemma_slots_in_order(plan, a);
    lemma_slots_in_order(plan, b);
    assert(slot_order()(order[a], order[b]));
    let i = order[a].index as int;
    let j = order[b].index as int;
    assert(plan[i].conn == plan[j].conn);
    if plan[i].phase > plan[j].phase {
        assert(plan[j].due <= plan[i].due);
    }
}

// ---------------------------------------------------------------------------
// Streams
// ---------------------------------------------------------------------------

/// The bytes that the first `n` packets carry in one direction of a connection.
pub open spec fn sent_bytes(pkts: Seq<OutPktView>, n: int, conn: usize, c2s: bool) -> Seq<u8>
    decreases n,
{
    if n <= 0 {
        Seq::empty()
    } else {
        let before = sent_bytes(pkts, n - 1, conn, c2s);
        if pkts[n - 1].conn == conn && pkts[n - 1].c2s == c2s {
            before + pkts[n - 1].payload
        } else {
            before
        }
    }
}

/// The bytes of a stream.
pub open spec fn stream_bytes(stream: Seq<(u64, Seq<u8>)>) -> Seq<u8>
    decreases stream.len(),
{
    if stream.len() == 0 {
        Seq::empty()
    } else {
        stream_bytes(stream.drop_last()) + stream.last().1
    }
}

/// Whether a slot is that of a packet in one direction of a connection.
spec fn belongs(plan: Seq<OutPktView>, conn: usize, c2s: bool) -> spec_fn(Slot) -> bool {
    |s: Slot| plan[s.index as int].conn == conn && plan[s.index as int].c2s == c2s
}

/// The bytes that the packets of a list of slots carry.
spec fn gathered(plan: Seq<OutPktView>, order: Seq<Slot>) -> Seq<u8>
    decreases order.len(),
{
    if order.len() == 0 {
        Seq::empty()
    } else {
        gathered(plan, order.drop_last()) + plan[order.last().index as int].payload
    }
}

proof fn lemma_sent_is_gathered(
    plan: Seq<OutPktView>,
    order: Seq<Slot>,
    n: int,
    conn: usize,
    c2s: bool,
)
    requires
        0 <= n <= order.len(),
    ensures
        sent_bytes(picked(plan, order), n, conn, c2s) == gathered(
            plan,
            order.take(n).filter(belongs(plan, conn, c2s)),
        ),
    decreases n,
{
    reveal(Seq::filter);
    let p = belongs(plan, conn, c2s);
    if n == 0 {
        assert(order.take(0) =~= Seq::<Slot>::empty());
        assert(order.take(0).filter(p) =~= Seq::<Slot>::empty());
    } else {
        lemma_sent_is_gathered(plan, order, n - 1, conn, c2s);
        let t = order.take(n);
        assert(t.drop_last() =~= order.take(n - 1));
        assert(t.last() == order[n - 1]);
        if p(order[n - 1]) {
            let f = order.take(n - 1).filter(p);
            assert(t.filter(p) == f.push(order[n - 1]));
            assert(f.push(order[n - 1]).drop_last() =~= f);
        }
    }
}

proof fn lemma_filter_sorted(s: Seq<Slot>, p: spec_fn(Slot) -> bool)
    requires
        sorted_by(s, slot_order()),
    ensures
        sorted_by(s.filter(p), slot_order()),
    decreases s.len(),
{
    reveal(Seq::filter);
    if s.len() > 0 {
        let t = s.drop_last();
        assert(sorted_by(t, slot_order())) by {
            assert forall|i: int, j: int| 0 <= i < j < t.len() implies #[trigger] slot_order()(
                t[i],
                t[j],
            ) by {
                assert(slot_order()(s[i], s[j]));
            }
        }
        lemma_filter_sorted(t, p);
        let f = t.filter(p);
        if p(s.last()) {
            let g = f.push(s.last());
            assert forall|i: int, j: int| 0 <= i < j < g.len() implies #[trigger] slot_order()(
                g[i],
                g[j],
            ) by {
                if j < f.len() {
                    assert(slot_order()(f[i], f[j]));
                } else {
                    t.lemma_filter_contains_rev(p, f[i]);
                    let k = t.index_of(f[i]);
                    assert(t[k] == s[k]);
                    assert(slot_order()(s[k], s[s.len() - 1]));
                }
            }
        }
    }
}

proof fn lemma_filter_multiset(s: Seq<Slot>, p: spec_fn(Slot) -> bool)
    ensures
        s.filter(p).to_multiset() =~= s.to_multiset().filter(p),
    decreases s.len(),
{
    reveal(Seq::filter);
    broadcast use {group_to_multiset_ensures, vstd::multiset::group_multiset_axioms};

    if s.len() > 0 {
        let t = s.drop_last();
        lemma_filter_multiset(t, p);
        assert(s =~= t.push(s.last()));
        to_multiset_build(t, s.last());
        if p(s.last()) {
            to_multiset_build(t.filter(p), s.last());
        }
        assert(s.filter(p).to_multiset() =~= s.to_multiset().filter(p));
    } else {
        assert(s.filter(p) =~= s);
        assert(s.to_multiset().len() == 0);
        assert(s.to_multiset().filter(p) =~= s.to_multiset());
    }
}

/// A direction's slots stand in order as planned.
proof fn lemma_planned_slots_sorted(plan: Seq<OutPktView>, n: int, conn: usize, c2s: bool)
    requires
        orderly(plan),
        0 <= n <= plan.len(),
        plan.len() <= usize::MAX,
    ensures
        ({
            let f = slots(plan).take(n).filter(belongs(plan, conn, c2s));
            &&& sorted_by(f, slot_order())
            &&& forall|i: int| 0 <= i < f.len() ==> slots(plan).take(n).contains(#[trigger] f[i])
        }),
    decreases n,
{
    reveal(Seq::filter);
    let p = belongs(plan, conn, c2s);
    let t = slots(plan).take(n);
    if n == 0 {
        assert(t.filter(p) =~= Seq::<Slot>::empty());
    } else {
        let u = slots(plan).take(n - 1);
        assert(t.drop_last() =~= u);
        lemma_planned_slots_sorted(plan, n - 1, conn, c2s);
        let f = u.filter(p);
        let last = slots(plan)[n - 1];
        assert(t.last() == last);
        let g = t.filter(p);
        assert forall|i: int| 0 <= i < f.len() implies {
            &&& t.contains(#[trigger] f[i])
            &&& p(f[i])
            &&& f[i].index < n - 1
            &&& f[i].due == plan[f[i].index as int].due
            &&& f[i].phase == plan[f[i].index as int].phase
        } by {
            u.lemma_filter_contains_rev(p, f[i]);
            let k = u.index_of(f[i]);
            assert(u[k] == slots(plan)[k]);
            assert(t[k] == f[i]);
            u.lemma_filter_pred(p, i);
        }
        if p(last) {
            assert(g == f.push(last));
            assert forall|i: int, j: int| 0 <= i < j < g.len() implies #[trigger] slot_order()(
                g[i],
                g[j],
            ) by {
                if j < f.len() {
                    assert(slot_order()(f[i], f[j]));
                } else {
                    let k = f[i].index as int;
                    assert(g[i] == f[i]);
                    assert(plan[k].conn == plan[n - 1].conn);
                }
            }
            assert forall|i: int| 0 <= i < g.len() implies t.contains(#[trigger] g[i]) by {
                if i < f.len() {
                    assert(g[i] == f[i]);
                } else {
                    assert(t[n - 1] == last);
                }
            }
        } else {
            assert(g == f);
        }
    }
}

/// Putting packets in order of time does not disturb a direction.
proof fn lemma_order_keeps_streams(plan: Seq<OutPktView>, conn: usize, c2s: bool)
    requires
        orderly(plan),
        plan.len() <= usize::MAX,
    ensures
        sent_bytes(in_time_order(plan), in_time_order(plan).len() as int, conn, c2s) == sent_bytes(
            plan,
            plan.len() as int,
            conn,
            c2s,
        ),
{
    let p = belongs(plan, conn, c2s);
    let s = slots(plan);
    let order = s.sort_by(slot_order());
    lemma_sorted_is_permutation(s, order);
    lemma_filter_sorted(order, p);
    lemma_planned_slots_sorted(plan, plan.len() as int, conn, c2s);
    assert(s.take(s.len() as int) =~= s);
    lemma_filter_multiset(order, p);
    lemma_filter_multiset(s, p);
    lemma_slot_order();
    lemma_sorted_unique(order.filter(p), s.filter(p), slot_order());
    lemma_sent_is_gathered(plan, order, order.len() as int, conn, c2s);
    lemma_sent_is_gathered(plan, s, s.len() as int, conn, c2s);
    assert(order.take(order.len() as int) =~= order);
    assert(picked(plan, s) =~= plan);
}

proof fn lemma_sent_prefix(a: Seq<OutPktView>, b: Seq<OutPktView>, n: int, conn: usize, c2s: bool)
    requires
        0 <= n <= a.len(),
        n <= b.len(),
        forall|i: int| 0 <= i < n ==> a[i] == b[i],
    ensures
        sent_bytes(a, n, conn, c2s) == sent_bytes(b, n, conn, c2s),
    decreases n,
{
    if n > 0 {
        lemma_sent_prefix(a, b, n - 1, conn, c2s);
    }
}

proof fn lemma_sent_concat(a: Seq<OutPktView>, b: Seq<OutPktView>, n: int, conn: usize, c2s: bool)
    requires
        0 <= n <= b.len(),
    ensures
        sent_bytes(a + b, a.len() + n, conn, c2s) == sent_bytes(a, a.len() as int, conn, c2s)
            + sent_bytes(b, n, conn, c2s),
    decreases n,
{
    let x = sent_bytes(a, a.len() as int, conn, c2s);
    if n == 0 {
        lemma_sent_prefix(a + b, a, a.len() as int, conn, c2s);
        assert(x + Seq::<u8>::empty() =~= x);
    } else {
        lemma_sent_concat(a, b, n - 1, conn, c2s);
        assert((a + b)[a.len() + n - 1] == b[n - 1]);
        let y = sent_bytes(b, n - 1, conn, c2s);
        assert(x + y + b[n - 1].payload =~= x + (y + b[n - 1].payload));
    }
}

/// Packets of elsewhere, or without payload, carry nothing in a direction.
proof fn lemma_sends_nothing(pkts: Seq<OutPktView>, n: int, conn: usize, c2s: bool)
    requires
        0 <= n <= pkts.len(),
        forall|i: int|
            0 <= i < n ==> (#[trigger] pkts[i]).conn != conn || pkts[i].c2s != c2s
                || pkts[i].payload.len() == 0,
    ensures
        sent_bytes(pkts, n, conn, c2s) == Seq::<u8>::empty(),
    decreases n,
{
    if n > 0 {
        lemma_sends_nothing(pkts, n - 1, conn, c2s);
        assert(sent_bytes(pkts, n, conn, c2s) =~= Seq::<u8>::empty());
    }
}

/// The pieces of a byte string, one after the other, are the byte string.
proof fn lemma_pieces_carry(
    conn: usize,
    c2s: bool,
    due: u64,
    ts: u64,
    bytes: Seq<u8>,
    mss: nat,
)
    requires
        mss > 0,
    ensures
        ({
            let plan = carrying(conn, c2s, due, ts, pieces(bytes, mss));
            sent_bytes(plan, plan.len() as int, conn, c2s) == bytes
        }),
    decreases bytes.len(),
{
    let plan = carrying(conn, c2s, due, ts, pieces(bytes, mss));
    if bytes.len() == 0 {
        assert(bytes =~= Seq::<u8>::empty());
    } else if bytes.len() <= mss {
        assert(sent_bytes(plan, 0, conn, c2s) =~= Seq::<u8>::empty());
        assert(sent_bytes(plan, 1, conn, c2s) =~= bytes);
    } else {
        let first = bytes.take(mss as int);
        let rest = bytes.skip(mss as int);
        lemma_pieces_carry(conn, c2s, due, ts, rest, mss);
        let a = carrying(conn, c2s, due, ts, seq![first]);
        let b = carrying(conn, c2s, due, ts, pieces(rest, mss));
        assert(plan =~= a + b);
        lemma_sent_concat(a, b, b.len() as int, conn, c2s);
        assert(sent_bytes(a, 0, conn, c2s) =~= Seq::<u8>::empty());
        assert(sent_bytes(a, 1, conn, c2s) =~= first);
        assert(first + rest =~= bytes);
    }
}

proof fn lemma_stream_carried(
    conn: usize,
    c2s: bool,
    t0: u64,
    stream: Seq<(u64, Seq<u8>)>,
    mss: nat,
)
    requires
        mss > 0,
    ensures
        ({
            let plan = stream_plan(conn, c2s, t0, stream, mss);
            &&& sent_bytes(plan, plan.len() as int, conn, c2s) == stream_bytes(stream)
            &&& sent_bytes(plan, plan.len() as int, conn, !c2s) == Seq::<u8>::empty()
        }),
    decreases stream.len(),
{
    let plan = stream_plan(conn, c2s, t0, stream, mss);
    lemma_stream_plan(conn, c2s, t0, stream, mss);
    lemma_sends_nothing(plan, plan.len() as int, conn, !c2s);
    if stream.len() > 0 {
        lemma_stream_carried(conn, c2s, t0, stream.drop_last(), mss);
        let a = stream_plan(conn, c2s, t0, stream.drop_last(), mss);
        let due = due_after(t0, stream);
        let b = carrying(conn, c2s, due, stream.last().0, pieces(stream.last().1, mss));
        lemma_pieces_carry(conn, c2s, due, stream.last().0, stream.last().1, mss);
        lemma_sent_concat(a, b, b.len() as int, conn, c2s);
    }
}

/// The stream of one direction of a connection.
pub open spec fn stream_of(c: ConnStateView, c2s: bool) -> Seq<(u64, Seq<u8>)> {
    if c2s {
        client_stream(c)
    } else {
        c.s2c.out
    }
}

proof fn lemma_conn_carried(conn: usize, c: ConnStateView, mss: nat, c2s: bool)
    requires
        mss > 0,
    ensures
        ({
            let plan = conn_plan(conn, c, mss);
            sent_bytes(plan, plan.len() as int, conn, c2s) == stream_bytes(stream_of(c, c2s))
        }),
{
    let t0 = c.first_ts;
    let h = handshake(conn, t0);
    let a = stream_plan(conn, true, t0, client_stream(c), mss);
    let b = stream_plan(conn, false, t0, c.s2c.out, mss);
    let plan = conn_plan(conn, c, mss);
    let z = plan.skip((h.len() + a.len() + b.len()) as int);
    assert(plan =~= h + a + b + z);
    lemma_sends_nothing(h, h.len() as int, conn, c2s);
    assert forall|i: int| 0 <= i < z.len() implies (#[trigger] z[i]).payload.len() == 0 by {}
    lemma_sends_nothing(z, z.len() as int, conn, c2s);
    lemma_stream_carried(conn, true, t0, client_stream(c), mss);
    lemma_stream_carried(conn, false, t0, c.s2c.out, mss);
    lemma_sent_concat(h, a, a.len() as int, conn, c2s);
    lemma_sent_concat(h + a, b, b.len() as int, conn, c2s);
    lemma_sent_concat(h + a + b, z, z.len() as int, conn, c2s);
    let s = stream_bytes(stream_of(c, c2s));
    let none = Seq::<u8>::empty();
    assert(none + s =~= s);
    assert(s + none =~= s);
    assert(none + none =~= none);
}

proof fn lemma_planned_carried(
    conns: Seq<ConnStateView>,
    n: int,
    mss: nat,
    conn: usize,
    c2s: bool,
)
    requires
        mss > 0,
        0 <= n <= usize::MAX,
    ensures
        ({
            let plan = planned(conns, n, mss);
            sent_bytes(plan, plan.len() as int, conn, c2s) == (if conn < n {
                stream_bytes(stream_of(conns[conn as int], c2s))
            } else {
                Seq::empty()
            })
        }),
    decreases n,
{
    if n > 0 {
        let k = (n - 1) as usize;
        let c = conns[n - 1];
        let a = planned(conns, n - 1, mss);
        let b = conn_plan(k, c, mss);
        lemma_planned_carried(conns, n - 1, mss, conn, c2s);
        lemma_sent_concat(a, b, b.len() as int, conn, c2s);
        let none = Seq::<u8>::empty();
        if conn == k {
            lemma_conn_carried(k, c, mss, c2s);
            let s = stream_bytes(stream_of(c, c2s));
            assert(none + s =~= s);
        } else {
            lemma_conn_plan(k, c, mss);
            lemma_sends_nothing(b, b.len() as int, conn, c2s);
            let x = sent_bytes(a, a.len() as int, conn, c2s);
            assert(x + none =~= x);
        }
    }
}

/// Every direction carries its stream whole: the payloads of its packets, in the
/// order in which they leave, are exactly the bytes collected for it, for the
/// client led by the preface.
pub proof fn law_streams_arrive_whole(r: RebuilderView, mss: usize, conn: usize, c2s: bool)
    requires
        countable(r, mss),
        conn < r.conns.len(),
    ensures
        sent_bytes(
            rebuilt_plan(r, mss),
            rebuilt_plan(r, mss).len() as int,
            conn,
            c2s,
        ) == stream_bytes(stream_of(r.conns[conn as int], c2s)),
{
    let m: nat = if mss == 0 {
        1
    } else {
        mss as nat
    };
    let n = r.conns.len() as int;
    lemma_planned_orderly(r.conns, n, m);
    lemma_order_keeps_streams(whole_plan(r, mss), conn, c2s);
    lemma_planned_carried(r.conns, n, m, conn, c2s);
}

/// Sequence numbers follow the bytes: each packet stands where its direction's
/// earlier ones have ended, counting their payloads and one for a SYN or a FIN,
/// and packets of other directions do not move it.
pub proof fn law_sequence_numbers_follow(
    pkts: Seq<OutPktView>,
    i: int,
    conn: usize,
    c2s: bool,
)
    requires
        0 <= i < pkts.len(),
    ensures
        next_seq(pkts, 0, conn, c2s) == first_seq(c2s),
        next_seq(pkts, i + 1, conn, c2s) == (if pkts[i].conn == conn && pkts[i].c2s == c2s {
            add32(next_seq(pkts, i, conn, c2s), advance(pkts[i]) as int)
        } else {
            next_seq(pkts, i, conn, c2s)
        }),
{
    lemma_add32_twice(
        first_seq(c2s),
        sent_before(pkts, i, conn, c2s) as int,
        advance(pkts[i]) as int,
    );
}

/// The two directions of a rebuilt connection go between the same two ends. One that
/// was captured keeps its own ends, and one that never was mirrors the other.
pub proof fn law_unseen_direction_mirrors(c: ConnStateView, c2s: bool)
    requires
        c.c2s.ep is Some || c.s2c.ep is Some,
    ensures
        ({
            let e = endpoint_for(c, c2s);
            let back = endpoint_for(c, !c2s);
            &&& c.c2s.ep is Some && c2s ==> Some(e) == c.c2s.ep
            &&& c.s2c.ep is Some && !c2s ==> Some(e) == c.s2c.ep
            &&& c.c2s.ep is None || c.s2c.ep is None ==> {
                &&& back.src_ip == e.dst_ip && back.dst_ip == e.src_ip
                &&& back.src_port == e.dst_port && back.dst_port == e.src_port
                &&& back.eth_src == e.eth_dst && back.eth_dst == e.eth_src
            }
        }),
{
}

/// A rebuilt connection opens and closes as TCP has it. It starts with a SYN of the
/// client that acknowledges nothing, the server's SYN that acknowledges it and the
/// client's acknowledgement, none of which carries a byte. It ends with a FIN of each
/// side. No other packet has either flag, and all but the first acknowledge.
pub proof fn law_rebuilt_connection_opens_and_closes(
    conn: usize,
    c: ConnStateView,
    mss: nat,
    i: int,
)
    requires
        0 <= i < conn_plan(conn, c, mss).len(),
    ensures
        ({
            let plan = conn_plan(conn, c, mss);
            let p = plan[i];
            let n = plan.len();
            &&& n >= 5
            &&& p.flags & 0x02 != 0 <==> i < 2
            &&& p.flags & 0x01 != 0 <==> i >= n - 2
            &&& p.flags & 0x10 != 0 <==> i > 0
            &&& p.flags & 0x04 == 0
            &&& i == 0 || i == 2 || i == n - 2 ==> p.c2s
            &&& i == 1 || i == n - 1 ==> !p.c2s
            &&& p.payload.len() > 0 ==> 3 <= i < n - 2
            &&& i < 3 ==> p.ts == c.first_ts
            &&& i >= n - 2 ==> p.ts == (if c.last_ts < c.first_ts {
                c.first_ts
            } else {
                c.last_ts
            })
            &&& p.conn == conn
        }),
{
    let h = handshake(conn, c.first_ts);
    let a = stream_plan(conn, true, c.first_ts, client_stream(c), mss);
    let b = stream_plan(conn, false, c.first_ts, c.s2c.out, mss);
    let plan = conn_plan(conn, c, mss);
    lemma_stream_flags(conn, true, c.first_ts, client_stream(c), mss);
    lemma_stream_flags(conn, false, c.first_ts, c.s2c.out, mss);
    assert(0x02u8 & 0x02 != 0 && 0x02u8 & 0x01 == 0 && 0x02u8 & 0x10 == 0 && 0x02u8 & 0x04 == 0)
        by (bit_vector);
    assert((0x02u8 | 0x10) & 0x02 != 0 && (0x02u8 | 0x10) & 0x01 == 0 && (0x02u8 | 0x10) & 0x10
        != 0 && (0x02u8 | 0x10) & 0x04 == 0) by (bit_vector);
    assert(0x10u8 & 0x02 == 0 && 0x10u8 & 0x01 == 0 && 0x10u8 & 0x10 != 0 && 0x10u8 & 0x04 == 0)
        by (bit_vector);
    assert((0x01u8 | 0x10) & 0x02 == 0 && (0x01u8 | 0x10) & 0x01 != 0 && (0x01u8 | 0x10) & 0x10
        != 0 && (0x01u8 | 0x10) & 0x04 == 0) by (bit_vector);
    assert((0x08u8 | 0x10) & 0x02 == 0 && (0x08u8 | 0x10) & 0x01 == 0 && (0x08u8 | 0x10) & 0x10
        != 0 && (0x08u8 | 0x10) & 0x04 == 0) by (bit_vector);
    if i < 3 {
        assert(plan[i] == h[i]);
    } else if i < 3 + a.len() {
        assert(plan[i] == a[i - 3]);
    } else if i < 3 + a.len() + b.len() {
        assert(plan[i] == b[i - 3 - a.len()]);
    }
}

proof fn lemma_stream_flags(
    conn: usize,
    c2s: bool,
    t0: u64,
    stream: Seq<(u64, Seq<u8>)>,
    mss: nat,
)
    ensures
        forall|i: int|
            0 <= i < stream_plan(conn, c2s, t0, stream, mss).len() ==> {
                let p = #[trigger] stream_plan(conn, c2s, t0, stream, mss)[i];
                p.flags == 0x08u8 | 0x10 && p.conn == conn
            },
    decreases stream.len(),
{
    if stream.len() > 0 {
        lemma_stream_flags(conn, c2s, t0, stream.drop_last(), mss);
        let before = stream_plan(conn, c2s, t0, stream.drop_last(), mss);
        let all = stream_plan(conn, c2s, t0, stream, mss);
        assert forall|i: int| 0 <= i < all.len() implies {
            let p = #[trigger] all[i];
            p.flags == 0x08u8 | 0x10 && p.conn == conn
        } by {
            if i < before.len() {
                assert(all[i] == before[i]);
            }
        }
    }
}

} // verus!
