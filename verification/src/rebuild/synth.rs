//! Synthesizing the packets of the output.
//!
//! Every connection gets a handshake, the packets that carry its frames, and a
//! teardown. Sequence numbers start at fixed values and follow the bytes that
//! are sent; acknowledgements are always up to date.
use vstd::prelude::*;

use crate::bytes::{
    add32, add64, copy_bytes, count_up, counted, lemma_add32_twice, off_plus, seq_plus, skip, take,
};
use crate::frame::PREFACE;
use crate::pkt::{
    build_tcp_packet, packet_bytes, reversed_endpoint, tcp_flags, Endpoint, EndpointView,
};
use crate::rebuild::order::{slot_order, sort_slots, Slot};
use crate::rebuild::replay::{
    conn_seq_view, has_endpoint, stamped_view, ConnState, ConnStateView, DirState, DirStateView,
    Rebuilder, RebuilderView,
};
use crate::rebuild::Report;

verus! {

/// Fixed initial sequence numbers. The normalized stream has different lengths
/// from the original, so original sequence numbers could not be preserved
/// anyway; fixed values make the output deterministic.
pub const CLIENT_ISN: u32 = 0x1000_0000;

pub const SERVER_ISN: u32 = 0x2000_0000;

pub const WINDOW: u16 = 65535;

// ---------------------------------------------------------------------------
// The plan
// ---------------------------------------------------------------------------

/// A packet that is to be sent.
#[derive(Debug)]
pub struct OutPkt {
    /// When it is due among the packets of all connections.
    pub due: u64,
    /// The timestamp it carries.
    pub ts: u64,
    pub phase: u8,
    pub conn: usize,
    pub c2s: bool,
    pub flags: u8,
    pub payload: Vec<u8>,
}

/// The same as a mathematical value.
#[verifier::ext_equal]
pub struct OutPktView {
    pub due: u64,
    pub ts: u64,
    pub phase: u8,
    pub conn: usize,
    pub c2s: bool,
    pub flags: u8,
    pub payload: Seq<u8>,
}

impl View for OutPkt {
    type V = OutPktView;

    open spec fn view(&self) -> OutPktView {
        OutPktView {
            due: self.due,
            ts: self.ts,
            phase: self.phase,
            conn: self.conn,
            c2s: self.c2s,
            flags: self.flags,
            payload: self.payload@,
        }
    }
}

/// The packets of a list, one by one.
pub open spec fn pkts_view(s: Seq<OutPkt>) -> Seq<OutPktView> {
    Seq::new(s.len(), |i: int| s[i]@)
}

/// The later of two times.
pub open spec fn later(a: u64, b: u64) -> u64 {
    if a < b {
        b
    } else {
        a
    }
}

/// A packet without payload.
pub open spec fn control(
    conn: usize,
    c2s: bool,
    flags: u8,
    phase: u8,
    due: u64,
    ts: u64,
) -> OutPktView {
    OutPktView { due, ts, phase, conn, c2s, flags, payload: Seq::empty() }
}

/// The handshake of a connection.
pub open spec fn handshake(conn: usize, t0: u64) -> Seq<OutPktView> {
    seq![
        control(conn, true, tcp_flags::SYN, 0, t0, t0),
        control(conn, false, tcp_flags::SYN | tcp_flags::ACK, 0, t0, t0),
        control(conn, true, tcp_flags::ACK, 0, t0, t0),
    ]
}

/// The teardown of a connection.
pub open spec fn teardown(conn: usize, due: u64, ts: u64) -> Seq<OutPktView> {
    seq![
        control(conn, true, tcp_flags::FIN | tcp_flags::ACK, 2, due, ts),
        control(conn, false, tcp_flags::FIN | tcp_flags::ACK, 2, due, ts),
    ]
}

/// Bytes cut into pieces of at most `mss`.
pub open spec fn pieces(bytes: Seq<u8>, mss: nat) -> Seq<Seq<u8>>
    decreases bytes.len(),
{
    if bytes.len() == 0 {
        Seq::empty()
    } else if bytes.len() <= mss || mss == 0 {
        seq![bytes]
    } else {
        seq![bytes.take(mss as int)] + pieces(bytes.skip(mss as int), mss)
    }
}

/// The packets that carry the pieces.
pub open spec fn carrying(
    conn: usize,
    c2s: bool,
    due: u64,
    ts: u64,
    parts: Seq<Seq<u8>>,
) -> Seq<OutPktView> {
    Seq::new(
        parts.len(),
        |i: int|
            OutPktView {
                due,
                ts,
                phase: 1,
                conn,
                c2s,
                flags: tcp_flags::PSH | tcp_flags::ACK,
                payload: parts[i],
            },
    )
}

/// When the last packet of a stream that starts at `t0` is due: never before one
/// that precedes it in the stream.
pub open spec fn due_after(t0: u64, stream: Seq<(u64, Seq<u8>)>) -> u64
    decreases stream.len(),
{
    if stream.len() == 0 {
        t0
    } else {
        later(due_after(t0, stream.drop_last()), stream.last().0)
    }
}

/// The packets that carry a stream.
pub open spec fn stream_plan(
    conn: usize,
    c2s: bool,
    t0: u64,
    stream: Seq<(u64, Seq<u8>)>,
    mss: nat,
) -> Seq<OutPktView>
    decreases stream.len(),
{
    if stream.len() == 0 {
        Seq::empty()
    } else {
        stream_plan(conn, c2s, t0, stream.drop_last(), mss) + carrying(
            conn,
            c2s,
            due_after(t0, stream),
            stream.last().0,
            pieces(stream.last().1, mss),
        )
    }
}

/// The client's stream. It leads with the HTTP/2 preface so that the rebuilt
/// capture identifies itself and dissectors pick it up without being told to
/// "decode as".
pub open spec fn client_stream(c: ConnStateView) -> Seq<(u64, Seq<u8>)> {
    if c.c2s.out.len() == 0 {
        Seq::empty()
    } else {
        seq![(c.first_ts, PREFACE@)] + c.c2s.out
    }
}

/// The packets of a connection.
pub open spec fn conn_plan(conn: usize, c: ConnStateView, mss: nat) -> Seq<OutPktView> {
    let t0 = c.first_ts;
    let t1 = later(c.last_ts, t0);
    let last_due = later(
        later(due_after(t0, client_stream(c)), due_after(t0, c.s2c.out)),
        t1,
    );
    handshake(conn, t0) + stream_plan(conn, true, t0, client_stream(c), mss) + stream_plan(
        conn,
        false,
        t0,
        c.s2c.out,
        mss,
    ) + teardown(conn, last_due, t1)
}

/// The packets of the first `n` connections.
pub open spec fn planned(conns: Seq<ConnStateView>, n: int, mss: nat) -> Seq<OutPktView>
    decreases n,
{
    if n <= 0 {
        Seq::empty()
    } else {
        planned(conns, n - 1, mss) + conn_plan((n - 1) as usize, conns[n - 1], mss)
    }
}

/// When each packet is due.
pub open spec fn slots(plan: Seq<OutPktView>) -> Seq<Slot> {
    Seq::new(
        plan.len(),
        |i: int| Slot { due: plan[i].due, phase: plan[i].phase, index: i as usize },
    )
}

/// The packets in the order in which they leave: connections are interleaved by
/// time, but each connection's own packets stay in causal order.
pub open spec fn in_time_order(plan: Seq<OutPktView>) -> Seq<OutPktView> {
    picked(plan, slots(plan).sort_by(slot_order()))
}

/// The packets that the slots stand for.
pub open spec fn picked(plan: Seq<OutPktView>, order: Seq<Slot>) -> Seq<OutPktView> {
    Seq::new(order.len(), |i: int| plan[order[i].index as int])
}

// ---------------------------------------------------------------------------
// Numbers
// ---------------------------------------------------------------------------

/// How far a packet moves its sender's sequence number.
pub open spec fn advance(p: OutPktView) -> nat {
    p.payload.len() + if p.flags & (tcp_flags::SYN | tcp_flags::FIN) != 0 {
        1nat
    } else {
        0nat
    }
}

/// How far the first `n` packets move the sequence number of one direction.
pub open spec fn sent_before(pkts: Seq<OutPktView>, n: int, conn: usize, c2s: bool) -> nat
    decreases n,
{
    if n <= 0 {
        0
    } else {
        sent_before(pkts, n - 1, conn, c2s) + if pkts[n - 1].conn == conn && pkts[n - 1].c2s
            == c2s {
            advance(pkts[n - 1])
        } else {
            0
        }
    }
}

/// How many of the first `n` packets go in one direction.
pub open spec fn count_before(pkts: Seq<OutPktView>, n: int, conn: usize, c2s: bool) -> nat
    decreases n,
{
    if n <= 0 {
        0
    } else {
        count_before(pkts, n - 1, conn, c2s) + if pkts[n - 1].conn == conn && pkts[n - 1].c2s
            == c2s {
            1nat
        } else {
            0nat
        }
    }
}

/// Where the sequence numbers of a direction start.
pub open spec fn first_seq(c2s: bool) -> u32 {
    if c2s {
        CLIENT_ISN
    } else {
        SERVER_ISN
    }
}

/// The next sequence number of a direction once `n` packets have left.
pub open spec fn next_seq(pkts: Seq<OutPktView>, n: int, conn: usize, c2s: bool) -> u32 {
    add32(first_seq(c2s), sent_before(pkts, n, conn, c2s) as int)
}

/// The endpoint of a direction. One direction may never have been captured; then
/// it mirrors the other.
pub open spec fn endpoint_for(c: ConnStateView, c2s: bool) -> EndpointView {
    let (own, other) = if c2s {
        (c.c2s.ep, c.s2c.ep)
    } else {
        (c.s2c.ep, c.c2s.ep)
    };
    match own {
        Some(e) => e,
        None => reversed_endpoint(other->Some_0),
    }
}

/// The `i`-th packet that leaves, with its timestamp. What it acknowledges is
/// the peer's next expected byte, which is exactly right for a synthesized
/// stream with no loss.
pub open spec fn numbered(ep: EndpointView, pkts: Seq<OutPktView>, i: int) -> (u64, Seq<u8>) {
    let p = pkts[i];
    (
        p.ts,
        packet_bytes(
            ep,
            next_seq(pkts, i, p.conn, p.c2s),
            if p.flags & tcp_flags::ACK != 0 {
                next_seq(pkts, i, p.conn, !p.c2s)
            } else {
                0
            },
            p.flags,
            WINDOW,
            (count_before(pkts, i, p.conn, p.c2s) % 65536) as u16,
            p.payload,
        ),
    )
}

/// The packets of a rebuilt capture, in the order in which they leave.
pub open spec fn rebuilt_plan(r: RebuilderView, mss: usize) -> Seq<OutPktView> {
    in_time_order(
        planned(
            r.conns,
            r.conns.len() as int,
            if mss == 0 {
                1
            } else {
                mss as nat
            },
        ),
    )
}

/// The rebuilt capture.
pub open spec fn rebuilt_packets(r: RebuilderView, mss: usize) -> Seq<(u64, Seq<u8>)> {
    let pkts = rebuilt_plan(r, mss);
    Seq::new(
        pkts.len(),
        |i: int|
            numbered(
                endpoint_for(r.conns[pkts[i].conn as int], pkts[i].c2s),
                pkts,
                i,
            ),
    )
}

// ---------------------------------------------------------------------------
// Totals
// ---------------------------------------------------------------------------

/// The report once a direction's skipped bytes are counted.
pub open spec fn dir_tallied(rep: Report, t: DirStateView) -> Report {
    if t.dir.pre_snapshot_skipped > 0 {
        Report {
            pre_snapshot_bytes: add64(
                rep.pre_snapshot_bytes,
                t.dir.pre_snapshot_skipped as int,
            ),
            pre_snapshot_dirs: counted(rep.pre_snapshot_dirs, 1),
            ..rep
        }
    } else {
        rep
    }
}

/// The report once a connection is accounted for.
pub open spec fn conn_tallied(rep: Report, c: ConnStateView) -> Report {
    let r1 = if c.c2s.dir.snapshot_misaligned || c.s2c.dir.snapshot_misaligned {
        Report { conns_misaligned: counted(rep.conns_misaligned, 1), ..rep }
    } else {
        rep
    };
    dir_tallied(dir_tallied(r1, c.c2s), c.s2c)
}

/// The report once the connections are accounted for.
pub open spec fn all_tallied(rep: Report, conns: Seq<ConnStateView>) -> Report
    decreases conns.len(),
{
    if conns.len() == 0 {
        rep
    } else {
        conn_tallied(all_tallied(rep, conns.drop_last()), conns.last())
    }
}

/// Counts a direction's skipped bytes.
fn tally_dir(rep: &mut Report, t: &DirState)
    ensures
        *final(rep) == dir_tallied(*old(rep), t@),
{
    if t.dir.pre_snapshot_skipped > 0 {
        rep.pre_snapshot_bytes = off_plus(rep.pre_snapshot_bytes, t.dir.pre_snapshot_skipped);
        rep.pre_snapshot_dirs = count_up(rep.pre_snapshot_dirs, 1);
    }
}

/// Accounts for a connection.
fn tally_conn(rep: &mut Report, c: &ConnState)
    ensures
        *final(rep) == conn_tallied(*old(rep), c@),
{
    if c.c2s.dir.snapshot_misaligned || c.s2c.dir.snapshot_misaligned {
        rep.conns_misaligned = count_up(rep.conns_misaligned, 1);
    }
    tally_dir(rep, &c.c2s);
    tally_dir(rep, &c.s2c);
}

// ---------------------------------------------------------------------------
// Planning
// ---------------------------------------------------------------------------

/// Plans a packet without payload.
fn push_control(
    plan: &mut Vec<OutPkt>,
    conn: usize,
    c2s: bool,
    flags: u8,
    phase: u8,
    due: u64,
    ts: u64,
)
    ensures
        pkts_view(final(plan)@) == pkts_view(old(plan)@).push(
            control(conn, c2s, flags, phase, due, ts),
        ),
{
    let p = OutPkt { due, ts, phase, conn, c2s, flags, payload: Vec::new() };
    assert(p@.payload =~= Seq::<u8>::empty());
    let ghost pv = p@;
    let ghost before = pkts_view(plan@);
    plan.push(p);
    assert(pkts_view(plan@) =~= before.push(pv));
}

/// Plans the packets that carry some bytes.
fn push_pieces(
    plan: &mut Vec<OutPkt>,
    conn: usize,
    c2s: bool,
    due: u64,
    ts: u64,
    bytes: &[u8],
    mss: usize,
)
    requires
        mss > 0,
    ensures
        pkts_view(final(plan)@) == pkts_view(old(plan)@) + carrying(
            conn,
            c2s,
            due,
            ts,
            pieces(bytes@, mss as nat),
        ),
{
    let ghost start = pkts_view(plan@);
    let ghost all = pieces(bytes@, mss as nat);
    let ghost mut done: Seq<Seq<u8>> = Seq::empty();
    let mut rest = bytes;
    proof {
        assert(done + all =~= all);
        assert(start + carrying(conn, c2s, due, ts, done) =~= start);
    }
    while rest.len() > 0
        invariant
            mss > 0,
            all == done + pieces(rest@, mss as nat),
            pkts_view(plan@) == start + carrying(conn, c2s, due, ts, done),
        decreases rest@.len(),
    {
        let n: usize = if rest.len() < mss {
            rest.len()
        } else {
            mss
        };
        let ghost before = pkts_view(plan@);
        let ghost left = rest@;
        let piece: Vec<u8> = copy_bytes(take(rest, n));
        let ghost pv = piece@;
        let p = OutPkt {
            due,
            ts,
            phase: 1,
            conn,
            c2s,
            flags: tcp_flags::PSH | tcp_flags::ACK,
            payload: piece,
        };
        let ghost ov = p@;
        plan.push(p);
        rest = skip(rest, n);
        proof {
            assert(pkts_view(plan@) =~= before.push(ov));
            assert(pieces(left, mss as nat) =~= seq![pv] + pieces(rest@, mss as nat)) by {
                if left.len() <= mss {
                    assert(left.take(n as int) =~= left);
                    assert(rest@ =~= Seq::<u8>::empty());
                }
            }
            assert(done + (seq![pv] + pieces(rest@, mss as nat)) =~= done.push(pv) + pieces(
                rest@,
                mss as nat,
            ));
            assert(carrying(conn, c2s, due, ts, done.push(pv)) =~= carrying(
                conn,
                c2s,
                due,
                ts,
                done,
            ).push(ov));
            assert(pkts_view(plan@) =~= start + carrying(conn, c2s, due, ts, done.push(pv)));
            done = done.push(pv);
        }
    }
    assert(all =~= done);
}

/// Plans the packets of a stream. Returns when the last of them is due.
fn push_stream(
    plan: &mut Vec<OutPkt>,
    conn: usize,
    c2s: bool,
    t0: u64,
    stream: &[(u64, Vec<u8>)],
    mss: usize,
) -> (r: u64)
    requires
        mss > 0,
    ensures
        pkts_view(final(plan)@) == pkts_view(old(plan)@) + stream_plan(
            conn,
            c2s,
            t0,
            stamped_view(stream@),
            mss as nat,
        ),
        r == due_after(t0, stamped_view(stream@)),
{
    let ghost start = pkts_view(plan@);
    let ghost all = stamped_view(stream@);
    let mut due: u64 = t0;
    let mut i: usize = 0;
    assert(start + stream_plan(conn, c2s, t0, all.take(0), mss as nat) =~= start);
    while i < stream.len()
        invariant
            mss > 0,
            i <= stream@.len(),
            all == stamped_view(stream@),
            due == due_after(t0, all.take(i as int)),
            pkts_view(plan@) == start + stream_plan(
                conn,
                c2s,
                t0,
                all.take(i as int),
                mss as nat,
            ),
        decreases stream@.len() - i,
    {
        let ghost before = pkts_view(plan@);
        let part = &stream[i];
        proof {
            assert(all.take(i + 1).drop_last() =~= all.take(i as int));
            assert(all.take(i + 1).last() == (part.0, part.1@));
        }
        if due < part.0 {
            due = part.0;
        }
        push_pieces(plan, conn, c2s, due, part.0, &part.1, mss);
        assert(pkts_view(plan@) =~= start + stream_plan(
            conn,
            c2s,
            t0,
            all.take(i + 1),
            mss as nat,
        ));
        i += 1;
    }
    assert(all.take(all.len() as int) =~= all);
    due
}

/// Plans the packets of a connection and takes its frames.
fn push_conn(plan: &mut Vec<OutPkt>, conn: usize, c: &mut ConnState, mss: usize)
    requires
        mss > 0,
    ensures
        pkts_view(final(plan)@) == pkts_view(old(plan)@) + conn_plan(conn, old(c)@, mss as nat),
        final(c)@ == (ConnStateView {
            c2s: DirStateView { out: Seq::empty(), ..old(c)@.c2s },
            s2c: DirStateView { out: Seq::empty(), ..old(c)@.s2c },
            ..old(c)@
        }),
{
    let ghost start = pkts_view(plan@);
    let t0: u64 = c.first_ts;
    push_control(plan, conn, true, tcp_flags::SYN, 0, t0, t0);
    push_control(plan, conn, false, tcp_flags::SYN | tcp_flags::ACK, 0, t0, t0);
    push_control(plan, conn, true, tcp_flags::ACK, 0, t0, t0);
    assert(pkts_view(plan@) =~= start + handshake(conn, t0));
    // Lead the client stream with the HTTP/2 preface so the rebuilt capture
    // identifies itself and dissectors pick it up without being told to
    // "decode as".
    let mut to_server: Vec<(u64, Vec<u8>)> = Vec::new();
    let mut to_client: Vec<(u64, Vec<u8>)> = Vec::new();
    std::mem::swap(&mut to_server, &mut c.c2s.out);
    std::mem::swap(&mut to_client, &mut c.s2c.out);
    let ghost raw = stamped_view(to_server@);
    if to_server.len() > 0 {
        let preface: Vec<u8> = copy_bytes(&PREFACE);
        to_server.insert(0, (t0, preface));
    }
    proof {
        assert(c@.c2s.out =~= Seq::<(u64, Seq<u8>)>::empty());
        assert(c@.s2c.out =~= Seq::<(u64, Seq<u8>)>::empty());
        assert(raw =~= old(c)@.c2s.out);
        assert(stamped_view(to_server@) =~= client_stream(old(c)@));
        assert(stamped_view(to_client@) =~= old(c)@.s2c.out);
    }
    let d1: u64 = push_stream(plan, conn, true, t0, &to_server, mss);
    let d2: u64 = push_stream(plan, conn, false, t0, &to_client, mss);
    let t1: u64 = if c.last_ts < t0 {
        t0
    } else {
        c.last_ts
    };
    let d3: u64 = if d1 < d2 {
        d2
    } else {
        d1
    };
    let due: u64 = if d3 < t1 {
        t1
    } else {
        d3
    };
    let ghost before = pkts_view(plan@);
    push_control(plan, conn, true, tcp_flags::FIN | tcp_flags::ACK, 2, due, t1);
    push_control(plan, conn, false, tcp_flags::FIN | tcp_flags::ACK, 2, due, t1);
    proof {
        assert(pkts_view(plan@) =~= before + teardown(conn, due, t1));
        assert(pkts_view(plan@) =~= start + conn_plan(conn, old(c)@, mss as nat));
    }
}

/// The endpoints of the client's and the server's direction.
fn endpoints(c: &ConnState) -> (r: (Endpoint, Endpoint))
    requires
        has_endpoint(c@),
    ensures
        r.0@ == endpoint_for(c@, true),
        r.1@ == endpoint_for(c@, false),
{
    // One direction may never have been captured; mirror the other.
    match c.c2s.ep {
        Some(a) => match c.s2c.ep {
            Some(b) => (a, b),
            None => (a, a.reversed()),
        },
        None => {
            let b: Endpoint = c.s2c.ep.unwrap();
            (b.reversed(), b)
        },
    }
}

proof fn lemma_stream_plan_conn(
    conn: usize,
    c2s: bool,
    t0: u64,
    stream: Seq<(u64, Seq<u8>)>,
    mss: nat,
)
    ensures
        ({
            let plan = stream_plan(conn, c2s, t0, stream, mss);
            forall|j: int| 0 <= j < plan.len() ==> (#[trigger] plan[j]).conn == conn
        }),
    decreases stream.len(),
{
    if stream.len() > 0 {
        lemma_stream_plan_conn(conn, c2s, t0, stream.drop_last(), mss);
        let before = stream_plan(conn, c2s, t0, stream.drop_last(), mss);
        let plan = stream_plan(conn, c2s, t0, stream, mss);
        assert forall|j: int| 0 <= j < plan.len() implies (#[trigger] plan[j]).conn == conn by {
            if j < before.len() {
                assert(plan[j] == before[j]);
            }
        }
    }
}

/// The planned packets belong to the connections they are planned for.
pub proof fn lemma_planned_conns(conns: Seq<ConnStateView>, n: int, mss: nat)
    requires
        0 <= n <= usize::MAX,
    ensures
        ({
            let plan = planned(conns, n, mss);
            forall|j: int| 0 <= j < plan.len() ==> (#[trigger] plan[j]).conn < n
        }),
    decreases n,
{
    if n > 0 {
        let c = conns[n - 1];
        let conn = (n - 1) as usize;
        lemma_planned_conns(conns, n - 1, mss);
        lemma_stream_plan_conn(conn, true, c.first_ts, client_stream(c), mss);
        lemma_stream_plan_conn(conn, false, c.first_ts, c.s2c.out, mss);
        let before = planned(conns, n - 1, mss);
        let mine = conn_plan(conn, c, mss);
        assert forall|j: int| 0 <= j < mine.len() implies (#[trigger] mine[j]).conn == conn by {}
        assert forall|j: int| 0 <= j < (before + mine).len() implies (
        #[trigger] (before + mine)[j]).conn < n by {
            if j < before.len() {
                assert((before + mine)[j] == before[j]);
            } else {
                assert((before + mine)[j] == mine[j - before.len()]);
            }
        }
    }
}

// ---------------------------------------------------------------------------
// Sending
// ---------------------------------------------------------------------------

/// Where the two directions of a connection stand.
#[derive(Debug, Clone, Copy)]
struct Counters {
    c2s_seq: u32,
    s2c_seq: u32,
    c2s_id: u16,
    s2c_id: u16,
}

/// Where the two directions of connection `conn` stand once `n` packets have
/// left.
spec fn counters_at(pkts: Seq<OutPktView>, n: int, conn: usize) -> Counters {
    Counters {
        c2s_seq: next_seq(pkts, n, conn, true),
        s2c_seq: next_seq(pkts, n, conn, false),
        c2s_id: (count_before(pkts, n, conn, true) % 65536) as u16,
        s2c_id: (count_before(pkts, n, conn, false) % 65536) as u16,
    }
}

/// The endpoint of a direction.
spec fn listed_endpoint(eps: Seq<(Endpoint, Endpoint)>, p: OutPktView) -> EndpointView {
    if p.c2s {
        eps[p.conn as int].0@
    } else {
        eps[p.conn as int].1@
    }
}

/// Sends one packet.
fn send(p: &OutPkt, at: &mut Counters, ep: &(Endpoint, Endpoint)) -> (r: Vec<u8>)
    ensures
        ({
            let before = *old(at);
            let (seq, peer, id) = if p.c2s {
                (before.c2s_seq, before.s2c_seq, before.c2s_id)
            } else {
                (before.s2c_seq, before.c2s_seq, before.s2c_id)
            };
            &&& r@ == packet_bytes(
                if p.c2s {
                    ep.0@
                } else {
                    ep.1@
                },
                seq,
                if p.flags & tcp_flags::ACK != 0 {
                    peer
                } else {
                    0
                },
                p.flags,
                WINDOW,
                id,
                p@.payload,
            )
            &&& *final(at) == (if p.c2s {
                Counters {
                    c2s_seq: add32(seq, advance(p@) as int),
                    c2s_id: ((id + 1) % 65536) as u16,
                    ..before
                }
            } else {
                Counters {
                    s2c_seq: add32(seq, advance(p@) as int),
                    s2c_id: ((id + 1) % 65536) as u16,
                    ..before
                }
            })
        }),
{
    let (seq, peer, id) = if p.c2s {
        (at.c2s_seq, at.s2c_seq, at.c2s_id)
    } else {
        (at.s2c_seq, at.c2s_seq, at.s2c_id)
    };
    // The peer's next expected byte: exactly right for a synthesized stream
    // with no loss.
    let ack: u32 = if p.flags & tcp_flags::ACK != 0 {
        peer
    } else {
        0
    };
    let frame: Vec<u8> = build_tcp_packet(
        if p.c2s {
            &ep.0
        } else {
            &ep.1
        },
        seq,
        ack,
        p.flags,
        WINDOW,
        id,
        &p.payload,
    );
    let marked: u64 = if p.flags & (tcp_flags::SYN | tcp_flags::FIN) != 0 {
        1
    } else {
        0
    };
    proof {
        lemma_add32_twice(seq, p.payload@.len() as int, marked as int);
    }
    let after: u32 = seq_plus(seq_plus(seq, p.payload.len() as u64), marked);
    let next_id: u16 = id.wrapping_add(1);
    if p.c2s {
        at.c2s_seq = after;
        at.c2s_id = next_id;
    } else {
        at.s2c_seq = after;
        at.s2c_id = next_id;
    }
    frame
}

/// One packet moves the counters of its own connection and direction only.
proof fn lemma_counters_step(pkts: Seq<OutPktView>, n: int, conn: usize)
    requires
        0 <= n < pkts.len(),
    ensures
        ({
            let p = pkts[n];
            let before = counters_at(pkts, n, conn);
            counters_at(pkts, n + 1, conn) == (if p.conn != conn {
                before
            } else if p.c2s {
                Counters {
                    c2s_seq: add32(before.c2s_seq, advance(p) as int),
                    c2s_id: ((before.c2s_id + 1) % 65536) as u16,
                    ..before
                }
            } else {
                Counters {
                    s2c_seq: add32(before.s2c_seq, advance(p) as int),
                    s2c_id: ((before.s2c_id + 1) % 65536) as u16,
                    ..before
                }
            })
        }),
{
    let p = pkts[n];
    lemma_add32_twice(CLIENT_ISN, sent_before(pkts, n, conn, true) as int, advance(p) as int);
    lemma_add32_twice(SERVER_ISN, sent_before(pkts, n, conn, false) as int, advance(p) as int);
}

/// Sends the packets in the given order.
fn send_all(plan: &[OutPkt], order: &[Slot], eps: &[(Endpoint, Endpoint)]) -> (r: Vec<
    (u64, Vec<u8>),
>)
    requires
        forall|i: int| 0 <= i < order@.len() ==> (#[trigger] order@[i]).index < plan@.len(),
        forall|i: int| 0 <= i < plan@.len() ==> (#[trigger] plan@[i]).conn < eps@.len(),
    ensures
        ({
            let pkts = picked(pkts_view(plan@), order@);
            stamped_view(r@) == Seq::new(
                pkts.len(),
                |i: int| numbered(listed_endpoint(eps@, pkts[i]), pkts, i),
            )
        }),
{
    let ghost pkts = picked(pkts_view(plan@), order@);
    let ghost all = Seq::new(
        pkts.len(),
        |i: int| numbered(listed_endpoint(eps@, pkts[i]), pkts, i),
    );
    let mut at: Vec<Counters> = Vec::new();
    while at.len() < eps.len()
        invariant
            at@.len() <= eps@.len(),
            forall|c: int|
                0 <= c < at@.len() ==> #[trigger] at@[c] == counters_at(pkts, 0, c as usize),
        decreases eps@.len() - at@.len(),
    {
        at.push(Counters { c2s_seq: CLIENT_ISN, s2c_seq: SERVER_ISN, c2s_id: 0, s2c_id: 0 });
    }
    let mut out: Vec<(u64, Vec<u8>)> = Vec::new();
    let mut i: usize = 0;
    while i < order.len()
        invariant
            i <= order@.len(),
            pkts == picked(pkts_view(plan@), order@),
            all == Seq::new(
                pkts.len(),
                |i: int| numbered(listed_endpoint(eps@, pkts[i]), pkts, i),
            ),
            forall|j: int|
                0 <= j < order@.len() ==> (#[trigger] order@[j]).index < plan@.len(),
            forall|j: int| 0 <= j < plan@.len() ==> (#[trigger] plan@[j]).conn < eps@.len(),
            at@.len() == eps@.len(),
            forall|c: int|
                0 <= c < at@.len() ==> #[trigger] at@[c] == counters_at(
                    pkts,
                    i as int,
                    c as usize,
                ),
            stamped_view(out@) == all.take(i as int),
        decreases order@.len() - i,
    {
        let p = &plan[order[i].index];
        let c: usize = p.conn;
        let ghost before = stamped_view(out@);
        let ghost was = at@;
        assert(pkts[i as int] == p@);
        let mut here: Counters = at[c];
        let frame: Vec<u8> = send(p, &mut here, &eps[c]);
        let ghost fv = frame@;
        at.set(c, here);
        out.push((p.ts, frame));
        proof {
            assert forall|k: int| 0 <= k < at@.len() implies #[trigger] at@[k] == counters_at(
                pkts,
                i + 1,
                k as usize,
            ) by {
                lemma_counters_step(pkts, i as int, k as usize);
                assert(was[k] == counters_at(pkts, i as int, k as usize));
            }
            assert((p.ts, fv) == all[i as int]);
            assert(stamped_view(out@) =~= before.push((p.ts, fv)));
            assert(all.take(i + 1) =~= all.take(i as int).push(all[i as int]));
        }
        i += 1;
    }
    assert(all.take(order@.len() as int) =~= all);
    out
}

/// The slots of the planned packets.
fn slots_of(plan: &[OutPkt]) -> (r: Vec<Slot>)
    ensures
        r@ == slots(pkts_view(plan@)),
{
    let mut out: Vec<Slot> = Vec::new();
    let mut i: usize = 0;
    while i < plan.len()
        invariant
            i <= plan@.len(),
            out@ == slots(pkts_view(plan@)).take(i as int),
        decreases plan@.len() - i,
    {
        let ghost before = out@;
        out.push(Slot { due: plan[i].due, phase: plan[i].phase, index: i });
        assert(out@ =~= slots(pkts_view(plan@)).take(i + 1));
        i += 1;
    }
    assert(slots(pkts_view(plan@)).take(plan@.len() as int) =~= slots(pkts_view(plan@)));
    out
}

/// Plans the packets of all connections.
fn plan_all(conns: Vec<ConnState>, mss: usize) -> (r: (Vec<OutPkt>, Vec<(Endpoint, Endpoint)>))
    requires
        mss > 0,
        forall|i: int| 0 <= i < conns@.len() ==> has_endpoint((#[trigger] conns@[i])@),
    ensures
        pkts_view(r.0@) == planned(conn_seq_view(conns@), conns@.len() as int, mss as nat),
        r.1@.len() == conns@.len(),
        forall|i: int|
            0 <= i < conns@.len() ==> (#[trigger] r.1@[i]).0@ == endpoint_for(conns@[i]@, true)
                && r.1@[i].1@ == endpoint_for(conns@[i]@, false),
{
    let ghost all = conns@;
    let ghost cv = conn_seq_view(conns@);
    let mut left: Vec<ConnState> = conns;
    let mut plan: Vec<OutPkt> = Vec::new();
    let mut eps: Vec<(Endpoint, Endpoint)> = Vec::new();
    let mut i: usize = 0;
    assert(pkts_view(plan@) =~= Seq::<OutPktView>::empty());
    while i < left.len()
        invariant
            mss > 0,
            i <= left@.len() == all.len(),
            cv == conn_seq_view(all),
            forall|j: int| 0 <= j < all.len() ==> has_endpoint((#[trigger] all[j])@),
            forall|j: int| i <= j < all.len() ==> #[trigger] left@[j] == all[j],
            pkts_view(plan@) == planned(cv, i as int, mss as nat),
            eps@.len() == i,
            forall|j: int|
                0 <= j < i ==> (#[trigger] eps@[j]).0@ == endpoint_for(all[j]@, true)
                    && eps@[j].1@ == endpoint_for(all[j]@, false),
        decreases left@.len() - i,
    {
        assert(left@[i as int] == all[i as int]);
        let ep = endpoints(&left[i]);
        eps.push(ep);
        let c = &mut left[i];
        push_conn(&mut plan, i, c, mss);
        i += 1;
    }
    (plan, eps)
}

impl Rebuilder {
    /// The rebuild is complete: gives the report and the packets of the output,
    /// with `mss` payload bytes each at most.
    pub fn finish(self, mss: usize) -> (r: (Report, Vec<(u64, Vec<u8>)>))
        requires
            self.wf(),
        ensures
            stamped_view(r.1@) == rebuilt_packets(self@, mss),
            ({
                let t = all_tallied(self@.report, self@.conns);
                r.0 == (Report {
                    packets_out: add64(
                        t.packets_out,
                        rebuilt_packets(self@, mss).len() as int,
                    ),
                    ..t
                })
            }),
    {
        let ghost me = self@;
        let mut rep: Report = self.tally();
        let size: usize = if mss == 0 {
            1
        } else {
            mss
        };
        let (plan, eps) = plan_all(self.conns, size);
        let sorted: Vec<Slot> = sort_slots(slots_of(&plan));
        proof {
            let pv = pkts_view(plan@);
            assert(eps.len() == me.conns.len());
            lemma_planned_conns(me.conns, me.conns.len() as int, size as nat);
            assert forall|i: int| 0 <= i < sorted@.len() implies (#[trigger] sorted@[i]).index
                < plan@.len() by {
                assert(slots(pv).contains(sorted@[i]));
                let j = slots(pv).index_of(sorted@[i]);
                assert(slots(pv)[j].index == j);
            }
            assert forall|i: int| 0 <= i < plan@.len() implies (#[trigger] plan@[i]).conn
                < eps@.len() by {
                assert(pv[i].conn == plan@[i].conn);
            }
        }
        let packets = send_all(&plan, &sorted, &eps);
        proof {
            let pv = pkts_view(plan@);
            let pkts = rebuilt_plan(me, mss);
            assert(picked(pv, sorted@) =~= pkts);
            assert forall|i: int| 0 <= i < pkts.len() implies pkts[i].conn < me.conns.len() by {
                let j = sorted@[i].index as int;
                assert(pkts[i] == pv[j]);
                assert(pv[j].conn == plan@[j].conn);
            }
            assert(stamped_view(packets@) =~= rebuilt_packets(me, mss));
        }
        rep.packets_out = off_plus(rep.packets_out, packets.len() as u64);
        (rep, packets)
    }

    /// The report with every connection accounted for.
    fn tally(&self) -> (r: Report)
        requires
            self.wf(),
        ensures
            r == all_tallied(self@.report, self@.conns),
    {
        let mut rep: Report = self.report;
        let ghost cs = self@.conns;
        let mut i: usize = 0;
        while i < self.conns.len()
            invariant
                cs == self@.conns,
                i <= cs.len(),
                rep == all_tallied(self@.report, cs.take(i as int)),
            decreases cs.len() - i,
        {
            proof {
                assert(cs.take(i + 1).drop_last() =~= cs.take(i as int));
                assert(cs.take(i + 1).last() == self.conns@[i as int]@);
            }
            tally_conn(&mut rep, &self.conns[i]);
            i += 1;
        }
        assert(cs.take(cs.len() as int) =~= cs);
        rep
    }
}

} // verus!
