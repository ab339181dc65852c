//! Laws of the connection table: a segment concerns one connection, port reuse
//! starts afresh, and a snapshot that is offered as usable restores its
//! direction.
use vstd::prelude::*;

use crate::addr::{lemma_addr_order, SocketAddr};
use crate::bytes::seq_distance;
use crate::conn::framing::longer;
use crate::conn::laws::{
    all_alike, law_directions_start_sound, law_directions_stay_sound, law_snapshot_resumes,
    lemma_parsed_limit, live, that_matter, together,
};
use crate::conn::{
    fed, gap_noted, parsed, seeded, snapshottable, ticked, unparsed_seq, DirectionView,
    ProcessedFrameView,
};
use crate::hpack::laws::{law_decoders_stay_sound, law_exact_table_is_plain, sound_decoder};
use crate::hpack::{claims_exact, table_bytes, DecoderView, FieldView};
use crate::pkt::{tcp_flags, SegmentView};
use crate::reassembly::{gapped, pushed, syn_noted};
use crate::snapshot::{law_table_round_trip, table_of};
use crate::text::{decimal, digit_char};
use crate::tracker::{
    capacities_applied, conn_fed, conn_id, conn_key, conn_ticked, dir_snapshot_of, in_key_order,
    key_between, key_lt, lemma_key_order, lemma_slot_splits, lookup_list, opened_conn, seg_dst,
    seg_has, seg_src, segment_fed, segment_tracked, slot, time_passed, tracked_key, without_key,
    ConnKey, ConnView, DirTrackView, TrackerView,
};

verus! {

/// Both directions of a connection have one key.
pub proof fn law_key_ignores_direction(a: SocketAddr, b: SocketAddr)
    ensures
        key_between(a, b) == key_between(b, a),
{
    lemma_addr_order(a, b);
}

/// A connection is found exactly where it is: it is tracked if and only if it is
/// in the list.
pub proof fn law_lookup_finds(s: Seq<ConnView>, k: ConnKey)
    requires
        in_key_order(s),
    ensures
        tracked_key(s, k) <==> exists|i: int| 0 <= i < s.len() && conn_key(#[trigger] s[i]) == k,
{
    lemma_slot_splits(s, k, 0);
    if exists|i: int| 0 <= i < s.len() && conn_key(#[trigger] s[i]) == k {
        let i = choose|i: int| 0 <= i < s.len() && conn_key(#[trigger] s[i]) == k;
        let j = slot(s, k);
        lemma_key_order(k, k, k);
        assert(i >= j) by {
            if i < j {
                assert(key_lt(conn_key(s[i]), k));
            }
        }
        if i > j {
            assert(key_lt(conn_key(s[j]), conn_key(s[i])));
        }
    }
}

proof fn lemma_fed_keeps_key(c: ConnView, s: SegmentView, now_us: u64)
    ensures
        conn_key(conn_fed(c, s, now_us)) == conn_key(c),
        conn_fed(c, s, now_us).id == c.id,
        conn_fed(c, s, now_us).first_seen_us == c.first_seen_us,
{
}

/// The key of the segment's connection.
pub open spec fn seg_key(s: SegmentView) -> ConnKey {
    key_between(seg_src(s), seg_dst(s))
}

proof fn lemma_opened_key(t: TrackerView, s: SegmentView, now_us: u64)
    ensures
        conn_key(opened_conn(t, s, now_us)) == seg_key(s),
{
    law_key_ignores_direction(seg_src(s), seg_dst(s));
}

/// A segment concerns the connection it belongs to and no other: every other
/// connection stays exactly as it is, and none appears.
#[verifier::rlimit(40)]
pub proof fn law_segment_concerns_one_connection(
    t: TrackerView,
    s: SegmentView,
    now_us: u64,
    c: ConnView,
)
    requires
        in_key_order(t.conns),
        conn_key(c) != seg_key(s),
    ensures
        t.conns.contains(c) <==> segment_tracked(t, s, now_us).conns.contains(c),
{
    let k = seg_key(s);
    let before = t.conns;
    let listed = lookup_list(before, s);
    let after = segment_tracked(t, s, now_us).conns;
    let i = slot(before, k);
    lemma_slot_splits(before, k, 0);
    lemma_slot_splits(listed, k, 0);
    assert(before.contains(c) <==> listed.contains(c)) by {
        if before.contains(c) && listed != before {
            let j = before.index_of(c);
            assert(listed[if j < i {
                j
            } else {
                j - 1
            }] == c);
        }
        if listed.contains(c) && listed != before {
            let j = listed.index_of(c);
            assert(before[if j < i {
                j
            } else {
                j + 1
            }] == c);
        }
    }
    let m = slot(listed, k);
    if tracked_key(listed, k) {
        let new = conn_fed(listed[m], s, now_us);
        lemma_fed_keeps_key(listed[m], s, now_us);
        if listed.contains(c) {
            let j = listed.index_of(c);
            assert(after[j] == c);
        }
        if after.contains(c) {
            let j = after.index_of(c);
            assert(j != m);
            assert(listed[j] == c);
        }
    } else if listed.len() >= t.max_conns {
    } else {
        let new = conn_fed(opened_conn(t, s, now_us), s, now_us);
        lemma_opened_key(t, s, now_us);
        lemma_fed_keeps_key(opened_conn(t, s, now_us), s, now_us);
        if listed.contains(c) {
            let j = listed.index_of(c);
            assert(after[if j < m {
                j
            } else {
                j + 1
            }] == c);
        }
        if after.contains(c) {
            let j = after.index_of(c);
            assert(j != m);
            assert(listed[if j < m {
                j
            } else {
                j - 1
            }] == c);
        }
    }
}

/// The number of connections never grows past the limit.
pub proof fn law_connections_are_bounded(t: TrackerView, s: SegmentView, now_us: u64)
    requires
        in_key_order(t.conns),
        t.conns.len() <= t.max_conns,
    ensures
        segment_tracked(t, s, now_us).conns.len() <= t.max_conns,
        time_passed(t, now_us).conns.len() <= t.max_conns,
{
    let listed = lookup_list(t.conns, s);
    lemma_slot_splits(t.conns, seg_key(s), 0);
    lemma_slot_splits(listed, seg_key(s), 0);
    t.conns.map_values(|c: ConnView| conn_ticked(c, now_us)).lemma_filter_len(
        |c: ConnView| crate::tracker::conn_alive(c, now_us, t.idle_us),
    );
}

/// Port reuse starts a new connection: after a bare SYN the tuple has a
/// connection with an id of its own, both of whose directions start from their
/// first byte with an empty table that is known in full, whatever was tracked
/// on the tuple before.
pub proof fn law_port_reuse_starts_afresh(t: TrackerView, s: SegmentView, now_us: u64)
    requires
        in_key_order(t.conns),
        seg_has(s, tcp_flags::SYN),
        !seg_has(s, tcp_flags::ACK),
        s.payload.len() == 0,
        without_key(t.conns, seg_key(s)).len() < t.max_conns,
    ensures
        ({
            let after = segment_tracked(t, s, now_us).conns;
            let c = conn_fed(opened_conn(t, s, now_us), s, now_us);
            &&& after.contains(c)
            &&& conn_key(c) == seg_key(s)
            &&& forall|d: ConnView| #[trigger] after.contains(d) && conn_key(d) == seg_key(s)
                ==> d == c
            &&& c.id == opened_conn(t, s, now_us).id
            &&& c.client == seg_src(s)
            &&& c.c2s.dir.dec.table.len() == 0
            &&& c.s2c.dir.dec.table.len() == 0
            &&& t.table_limit >= 4096 ==> claims_exact(c.c2s.dir.dec) && claims_exact(
                c.s2c.dir.dec,
            )
        }),
{
    let k = seg_key(s);
    let listed = without_key(t.conns, k);
    let after = segment_tracked(t, s, now_us).conns;
    let c = conn_fed(opened_conn(t, s, now_us), s, now_us);
    lemma_without_key(t.conns, k);
    let m = slot(listed, k);
    lemma_slot_splits(listed, k, 0);
    lemma_opened_key(t, s, now_us);
    lemma_fed_keeps_key(opened_conn(t, s, now_us), s, now_us);
    assert(!tracked_key(listed, k));
    assert(after == listed.insert(m, c));
    assert(after[m] == c);
    assert forall|d: ConnView| #[trigger] after.contains(d) && conn_key(d) == k implies d == c by {
        let j = after.index_of(d);
        if j != m {
            let x = if j < m {
                j
            } else {
                j - 1
            };
            assert(listed[x] == d);
        }
    }
}

/// A number in decimal is made of digits, at least one.
proof fn lemma_decimal_digits(n: nat)
    ensures
        decimal(n).len() > 0,
        !decimal(n).contains('#'),
    decreases n,
{
    if n >= 10 {
        lemma_decimal_digits(n / 10);
        assert forall|i: int| 0 <= i < decimal(n).len() implies decimal(n)[i] != '#' by {
            if i < decimal(n / 10).len() {
                assert(decimal(n)[i] == decimal(n / 10)[i]);
            }
        }
    } else {
        assert(decimal(n) =~= seq![digit_char(n as int)]);
    }
}

/// Different numbers look different in decimal.
proof fn lemma_decimal_injective(m: nat, n: nat)
    requires
        decimal(m) == decimal(n),
    ensures
        m == n,
    decreases m,
{
    assert(decimal(m).last() == digit_char((m % 10) as int)) by {
        assert(m < 10 ==> m % 10 == m);
    }
    assert(decimal(n).last() == digit_char((n % 10) as int)) by {
        assert(n < 10 ==> n % 10 == n);
    }
    assert(m % 10 == n % 10);
    lemma_decimal_digits(m / 10);
    lemma_decimal_digits(n / 10);
    if m >= 10 && n >= 10 {
        assert(decimal(m).drop_last() =~= decimal(m / 10));
        assert(decimal(n).drop_last() =~= decimal(n / 10));
        lemma_decimal_injective(m / 10, n / 10);
    }
}

/// Ids are unique over time: connections that were first seen at different times
/// have different ids, on whatever tuples. And they are stable: neither segments
/// nor the passage of time change a connection's id.
pub proof fn law_ids_are_unique_over_time(
    c: SocketAddr,
    s: SocketAddr,
    t: u64,
    c2: SocketAddr,
    s2: SocketAddr,
    t2: u64,
    conn: ConnView,
    seg: SegmentView,
    now_us: u64,
)
    ensures
        conn_id(c, s, t) == conn_id(c2, s2, t2) ==> t == t2,
        conn_fed(conn, seg, now_us).id == conn.id,
        conn_ticked(conn, now_us).id == conn.id,
{
    reveal_strlit("#");
    let x = conn_id(c, s, t);
    let y = conn_id(c2, s2, t2);
    let d = decimal(t as nat);
    let e = decimal(t2 as nat);
    lemma_decimal_digits(t as nat);
    lemma_decimal_digits(t2 as nat);
    if x == y {
        // The last separator stands at the same place in both.
        let i = x.len() - d.len() - 1;
        let j = y.len() - e.len() - 1;
        assert(x[i] == '#');
        assert(y[j] == '#');
        if i < j {
            assert(d[j - i - 1] == x[j]);
            assert(d.contains('#'));
        }
        if j < i {
            assert(e[i - j - 1] == y[i]);
            assert(e.contains('#'));
        }
        assert(d =~= x.skip(i + 1));
        assert(e =~= y.skip(j + 1));
        lemma_decimal_injective(t as nat, t2 as nat);
    }
}

proof fn lemma_without_key(s: Seq<ConnView>, k: ConnKey)
    requires
        in_key_order(s),
    ensures
        forall|i: int|
            0 <= i < without_key(s, k).len() ==> conn_key(#[trigger] without_key(s, k)[i]) != k,
        !tracked_key(without_key(s, k), k),
{
    let r = without_key(s, k);
    lemma_slot_splits(s, k, 0);
    law_lookup_finds(s, k);
    lemma_slot_splits(r, k, 0);
    let m = slot(s, k);
    assert forall|i: int| 0 <= i < r.len() implies conn_key(#[trigger] r[i]) != k by {
        if tracked_key(s, k) {
            lemma_key_order(k, k, k);
            if i < m {
                assert(r[i] == s[i]);
                assert(key_lt(conn_key(s[i]), k));
            } else {
                assert(r[i] == s[i + 1]);
                assert(key_lt(conn_key(s[m]), conn_key(s[i + 1])));
            }
        } else {
            assert(r[i] == s[i]);
        }
    }
}

proof fn lemma_capacities_sound(d: DecoderView, fs: Seq<ProcessedFrameView>)
    requires
        sound_decoder(d),
    ensures
        sound_decoder(capacities_applied(d, fs)),
        capacities_applied(d, fs).track_limit == d.track_limit,
    decreases fs.len(),
{
    if fs.len() > 0 {
        lemma_capacities_sound(d, fs.drop_last());
        if let Some(n) = fs.last().settings_table_size {
            law_decoders_stay_sound(
                capacities_applied(d, fs.drop_last()),
                Seq::empty(),
                n as usize,
            );
        }
    }
}

/// Whether both directions of a connection are live and sound, and hold tables
/// of up to `limit` bytes.
#[verifier::opaque]
pub open spec fn live_conn(c: ConnView, limit: usize) -> bool {
    &&& live(c.c2s.dir) && c.c2s.dir.dec.track_limit == limit
    &&& live(c.s2c.dir) && c.s2c.dir.dec.track_limit == limit
}

proof fn lemma_segment_live(
    t: DirTrackView,
    other: DirTrackView,
    s: SegmentView,
    now_us: u64,
)
    requires
        live(t.dir),
        live(other.dir),
    ensures
        ({
            let (a, b) = segment_fed(t, other, s, now_us);
            &&& live(a.dir) && a.dir.dec.track_limit == t.dir.dec.track_limit
            &&& live(b.dir) && b.dir.dec.track_limit == other.dir.dec.track_limit
        }),
{
    let dir = if seg_has(s, tcp_flags::SYN) {
        DirectionView { reasm: syn_noted(t.dir.reasm, s.seq), ..t.dir }
    } else {
        t.dir
    };
    law_directions_stay_sound(dir, s.seq, s.payload, now_us, 0);
    lemma_capacities_sound(other.dir.dec, fed(dir, s.seq, s.payload, now_us).1);
    reveal(fed);
    let got = DirectionView { reasm: pushed(dir.reasm, s.seq, s.payload, now_us).0, ..dir };
    lemma_parsed_limit(got);
    lemma_parsed_limit(gap_noted(got));
}

proof fn lemma_fed_live(c: ConnView, s: SegmentView, now_us: u64, limit: usize)
    requires
        live_conn(c, limit),
    ensures
        live_conn(conn_fed(c, s, now_us), limit),
{
    reveal(live_conn);
    lemma_segment_live(c.c2s, c.s2c, s, now_us);
    lemma_segment_live(c.s2c, c.c2s, s, now_us);
}

proof fn lemma_opened_live(t: TrackerView, s: SegmentView, now_us: u64)
    ensures
        live_conn(opened_conn(t, s, now_us), t.table_limit),
{
    reveal(live_conn);
    law_directions_start_sound(false, true, t.table_limit);
    law_directions_start_sound(false, false, t.table_limit);
}

proof fn lemma_ticked_live(c: ConnView, now_us: u64, limit: usize)
    requires
        live_conn(c, limit),
    ensures
        live_conn(conn_ticked(c, now_us), limit),
{
    reveal(live_conn);
    law_directions_stay_sound(c.c2s.dir, 0, Seq::empty(), now_us, 0);
    law_directions_stay_sound(c.s2c.dir, 0, Seq::empty(), now_us, 0);
    reveal(ticked);
    lemma_parsed_limit(gap_noted(DirectionView { reasm: gapped(c.c2s.dir.reasm), ..c.c2s.dir }));
    lemma_parsed_limit(gap_noted(DirectionView { reasm: gapped(c.s2c.dir.reasm), ..c.s2c.dir }));
}

/// Every tracked direction is live and sound, and its table limited, whatever
/// segments arrive and however much time passes.
pub proof fn law_tracked_directions_are_sound(t: TrackerView, s: SegmentView, now_us: u64)
    requires
        in_key_order(t.conns),
        forall|i: int| 0 <= i < t.conns.len() ==> live_conn(#[trigger] t.conns[i], t.table_limit),
    ensures
        ({
            let a = segment_tracked(t, s, now_us).conns;
            forall|i: int| 0 <= i < a.len() ==> live_conn(#[trigger] a[i], t.table_limit)
        }),
        ({
            let a = time_passed(t, now_us).conns;
            forall|i: int| 0 <= i < a.len() ==> live_conn(#[trigger] a[i], t.table_limit)
        }),
{
    let k = seg_key(s);
    let limit = t.table_limit;
    let listed = lookup_list(t.conns, s);
    lemma_slot_splits(t.conns, k, 0);
    lemma_slot_splits(listed, k, 0);
    let n = slot(t.conns, k);
    assert forall|i: int| 0 <= i < listed.len() implies live_conn(#[trigger] listed[i], limit) by {
        if listed != t.conns {
            assert(listed[i] == t.conns[if i < n {
                i
            } else {
                i + 1
            }]);
        }
    }
    let m = slot(listed, k);
    let a = segment_tracked(t, s, now_us).conns;
    if tracked_key(listed, k) {
        lemma_fed_live(listed[m], s, now_us, limit);
        assert forall|i: int| 0 <= i < a.len() implies live_conn(#[trigger] a[i], limit) by {
            if i != m {
                assert(a[i] == listed[i]);
            }
        }
    } else if listed.len() >= t.max_conns {
    } else {
        lemma_opened_live(t, s, now_us);
        lemma_fed_live(opened_conn(t, s, now_us), s, now_us, limit);
        assert forall|i: int| 0 <= i < a.len() implies live_conn(#[trigger] a[i], limit) by {
            if i < m {
                assert(a[i] == listed[i]);
            } else if i > m {
                assert(a[i] == listed[i - 1]);
            }
        }
    }
    let f = |c: ConnView| conn_ticked(c, now_us);
    let p = |c: ConnView| crate::tracker::conn_alive(c, now_us, t.idle_us);
    let all = t.conns.map_values(f);
    let b = all.filter(p);
    assert forall|i: int| 0 <= i < b.len() implies live_conn(#[trigger] b[i], limit) by {
        all.lemma_filter_contains_rev(p, b[i]);
        let j = all.index_of(b[i]);
        assert(b[i] == conn_ticked(t.conns[j], now_us));
        lemma_ticked_live(t.conns[j], now_us, limit);
    }
}

/// The bytes that the tables of all connections hold.
pub open spec fn all_tables(conns: Seq<ConnView>) -> nat
    decreases conns.len(),
{
    if conns.len() == 0 {
        0
    } else {
        all_tables(conns.drop_last()) + table_bytes(conns.last().c2s.dir.dec.table) + table_bytes(
            conns.last().s2c.dir.dec.table,
        )
    }
}

/// No table is larger than the limit, so all of them together hold at most two
/// such tables for each connection.
pub proof fn law_tables_are_bounded(conns: Seq<ConnView>, limit: usize)
    requires
        forall|i: int| 0 <= i < conns.len() ==> live_conn(#[trigger] conns[i], limit),
    ensures
        forall|i: int|
            0 <= i < conns.len() ==> table_bytes((#[trigger] conns[i]).c2s.dir.dec.table) <= limit
                && table_bytes(conns[i].s2c.dir.dec.table) <= limit,
        all_tables(conns) <= 2 * limit * conns.len(),
    decreases conns.len(),
{
    reveal(live_conn);
    assert(table_bytes(Seq::<FieldView>::empty()) == 0);
    assert forall|i: int| 0 <= i < conns.len() implies table_bytes(
        (#[trigger] conns[i]).c2s.dir.dec.table,
    ) <= limit && table_bytes(conns[i].s2c.dir.dec.table) <= limit by {
        assert(live_conn(conns[i], limit));
        assert(conns[i].c2s.dir.dec.over_limit ==> conns[i].c2s.dir.dec.table =~= Seq::empty());
        assert(conns[i].s2c.dir.dec.over_limit ==> conns[i].s2c.dir.dec.table =~= Seq::empty());
    }
    if conns.len() > 0 {
        let p = conns.drop_last();
        assert forall|i: int| 0 <= i < p.len() implies live_conn(#[trigger] p[i], limit) by {
            assert(p[i] == conns[i]);
        }
        law_tables_are_bounded(p, limit);
        assert(conns.last() == conns[conns.len() - 1]);
        assert(2 * limit * conns.len() == 2 * limit * p.len() + 2 * limit) by (nonlinear_arith)
            requires
                conns.len() == p.len() + 1,
        ;
    } else {
        assert(2 * limit * conns.len() == 0) by (nonlinear_arith)
            requires
                conns.len() == 0,
        ;
    }
}

// ---------------------------------------------------------------------------
// Snapshots
// ---------------------------------------------------------------------------

/// A direction is offered as usable exactly when there is nothing to say against
/// it: whatever is not usable comes with a reason, and whatever is usable can be
/// vouched for, with the bytes it still needs in the capture.
pub proof fn law_unusable_has_a_reason(
    name: Seq<char>,
    src: SocketAddr,
    dst: SocketAddr,
    t: DirTrackView,
    ring_oldest_us: Option<u64>,
)
    ensures
        ({
            let s = dir_snapshot_of(name, src, dst, t, ring_oldest_us);
            &&& s.usable <==> s.reason is None
            &&& s.usable ==> snapshottable(t.dir)
            &&& t.dir.poisoned || t.dir.desynced || t.dir.expect_preface || !claims_exact(
                t.dir.dec,
            ) ==> !s.usable
            &&& s.usable && t.pending_since_us is Some ==> ring_oldest_us is Some
                && t.pending_since_us->Some_0 >= ring_oldest_us->Some_0
        }),
{
}

/// A snapshot that is offered as usable restores its direction. Let the stream go
/// on with `more` after the snapshot was taken of `t`. A fresh direction that is
/// seeded with what the snapshot holds, and has the bytes from some point at or
/// before the recorded boundary on, takes the same header frames off the stream
/// as the live one goes on to take, with the same header lists, unless the live
/// one's table outgrows a limit that the other does not have.
pub proof fn law_usable_snapshot_restores(
    name: Seq<char>,
    src: SocketAddr,
    dst: SocketAddr,
    t: DirTrackView,
    ring_oldest_us: Option<u64>,
    more: Seq<u8>,
    e0: DirectionView,
)
    requires
        live(t.dir),
        dir_snapshot_of(name, src, dst, t, ring_oldest_us).usable,
        e0.keep_payloads,
        t.dir.table_track_limit == e0.table_track_limit || (t.dir.table_track_limit
            < e0.table_track_limit && !parsed(longer(t.dir, more)).0.dec.over_limit),
        t.dir.discard <= t.dir.reasm.avail.len() + more.len(),
        ({
            let s = dir_snapshot_of(name, src, dst, t, ring_oldest_us);
            let skipped = seq_distance(s.next_frame_seq, unparsed_seq(e0.reasm));
            &&& 0 <= skipped <= e0.reasm.avail.len()
            &&& e0.reasm.avail.skip(skipped) == (t.dir.reasm.avail + more).skip(
                t.dir.discard as int,
            )
        }),
    ensures
        ({
            let s = dir_snapshot_of(name, src, dst, t, ring_oldest_us);
            let e = seeded(e0, table_of(s.entries), s.max_table_size, s.next_frame_seq);
            let (live_end, live_frames) = parsed(longer(t.dir, more));
            &&& together(live_end, parsed(e).0)
            &&& all_alike(that_matter(live_frames), that_matter(parsed(e).1))
        }),
{
    law_exact_table_is_plain(t.dir.dec);
    law_table_round_trip(t.dir.dec.table);
    law_snapshot_resumes(longer(t.dir, more), e0);
}

} // verus!
