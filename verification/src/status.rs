//! What the keeper knows of its connections and of itself, for whoever asks.
use vstd::arithmetic::div_mod::lemma_small_mod;
use vstd::prelude::*;
use vstd::string::*;

use crate::addr::addr_text;
use crate::bytes::{
    add64, count_up, counted, lemma_add64_twice, lemma_count_nothing, lemma_counted_twice, off_plus,
};
use crate::conn::{boundary_seq, snapshottable};
use crate::hpack::{claims_exact, table_bytes};
use crate::ring::{held, oldest, Ring, RingView};
use crate::snapshot::DirSnapshotView;
use crate::tracker::{
    conn_list_view, conn_snapshot_of, elapsed, pending_covered, Conn, ConnView, DirTrack,
    DirTrackView, Tracker,
};

verus! {

/// One direction of a tracked connection.
#[derive(Debug)]
pub struct DirStatus {
    pub dir: String,
    pub snapshottable: bool,
    pub exact: bool,
    pub poisoned: bool,
    pub desynced: bool,
    pub next_frame_seq: u32,
    pub table_entries: usize,
    pub table_size: usize,
    pub max_table_size: usize,
    pub capacity_observed: bool,
    pub table_untracked: bool,
    pub frames: u64,
    pub header_blocks: u64,
    pub unresolved_refs: u64,
    pub gaps: u64,
    pub resyncs: u64,
    pub decode_errors: u64,
    pub bytes: u64,
}

/// The same as a mathematical value.
#[verifier::ext_equal]
pub struct DirStatusView {
    pub dir: Seq<char>,
    pub snapshottable: bool,
    pub exact: bool,
    pub poisoned: bool,
    pub desynced: bool,
    pub next_frame_seq: u32,
    pub table_entries: int,
    pub table_size: int,
    pub max_table_size: usize,
    pub capacity_observed: bool,
    pub table_untracked: bool,
    pub frames: u64,
    pub header_blocks: u64,
    pub unresolved_refs: u64,
    pub gaps: u64,
    pub resyncs: u64,
    pub decode_errors: u64,
    pub bytes: u64,
}

impl View for DirStatus {
    type V = DirStatusView;

    open spec fn view(&self) -> DirStatusView {
        DirStatusView {
            dir: self.dir@,
            snapshottable: self.snapshottable,
            exact: self.exact,
            poisoned: self.poisoned,
            desynced: self.desynced,
            next_frame_seq: self.next_frame_seq,
            table_entries: self.table_entries as int,
            table_size: self.table_size as int,
            max_table_size: self.max_table_size,
            capacity_observed: self.capacity_observed,
            table_untracked: self.table_untracked,
            frames: self.frames,
            header_blocks: self.header_blocks,
            unresolved_refs: self.unresolved_refs,
            gaps: self.gaps,
            resyncs: self.resyncs,
            decode_errors: self.decode_errors,
            bytes: self.bytes,
        }
    }
}

/// What there is to say of a direction.
pub open spec fn dir_status_of(name: Seq<char>, t: DirTrackView) -> DirStatusView {
    DirStatusView {
        dir: name,
        snapshottable: snapshottable(t.dir),
        exact: claims_exact(t.dir.dec),
        poisoned: t.dir.poisoned,
        desynced: t.dir.desynced,
        next_frame_seq: boundary_seq(t.dir),
        table_entries: t.dir.dec.table.len() as int,
        table_size: table_bytes(t.dir.dec.table) as int,
        max_table_size: t.dir.dec.max_size,
        capacity_observed: t.dir.dec.capacity_observed,
        table_untracked: t.dir.dec.over_limit,
        frames: t.dir.frames,
        header_blocks: t.dir.blocks,
        unresolved_refs: t.dir.dec.unresolved,
        gaps: t.dir.reasm.gaps,
        resyncs: t.dir.resyncs,
        decode_errors: t.dir.decode_errors,
        bytes: t.dir.reasm.bytes,
    }
}

fn dir_status(name: &str, t: &DirTrack) -> (r: DirStatus)
    requires
        t.wf(),
    ensures
        r@ == dir_status_of(name@, t@),
{
    DirStatus {
        dir: name.to_owned(),
        snapshottable: t.dir.is_snapshottable(),
        exact: t.dir.dec.is_exact(),
        poisoned: t.dir.poisoned,
        desynced: t.dir.desynced,
        next_frame_seq: t.dir.next_frame_seq(),
        table_entries: t.dir.dec.entry_count(),
        table_size: t.dir.dec.table_size(),
        max_table_size: t.dir.dec.max_size(),
        capacity_observed: t.dir.dec.capacity_observed(),
        table_untracked: t.dir.dec.over_limit(),
        frames: t.dir.frames,
        header_blocks: t.dir.blocks,
        unresolved_refs: t.dir.dec.unresolved_refs(),
        gaps: t.dir.reasm.gaps_declared(),
        resyncs: t.dir.resyncs,
        decode_errors: t.dir.decode_errors,
        bytes: t.dir.reasm.bytes_delivered(),
    }
}

/// A tracked connection.
#[derive(Debug)]
pub struct ConnStatus {
    pub conn_id: String,
    pub client: String,
    pub server: String,
    pub age_s: u64,
    pub idle_s: u64,
    pub closing: bool,
    pub c2s: DirStatus,
    pub s2c: DirStatus,
}

/// The same as a mathematical value.
#[verifier::ext_equal]
pub struct ConnStatusView {
    pub conn_id: Seq<char>,
    pub client: Seq<char>,
    pub server: Seq<char>,
    pub age_s: u64,
    pub idle_s: u64,
    pub closing: bool,
    pub c2s: DirStatusView,
    pub s2c: DirStatusView,
}

impl View for ConnStatus {
    type V = ConnStatusView;

    open spec fn view(&self) -> ConnStatusView {
        ConnStatusView {
            conn_id: self.conn_id@,
            client: self.client@,
            server: self.server@,
            age_s: self.age_s,
            idle_s: self.idle_s,
            closing: self.closing,
            c2s: self.c2s@,
            s2c: self.s2c@,
        }
    }
}

/// What there is to say of a connection.
pub open spec fn conn_status_of(c: ConnView, now_us: u64) -> ConnStatusView {
    ConnStatusView {
        conn_id: c.id,
        client: addr_text(c.client),
        server: addr_text(c.server),
        age_s: elapsed(now_us, c.first_seen_us) / 1_000_000,
        idle_s: elapsed(now_us, c.last_seen_us) / 1_000_000,
        closing: c.closed_at_us is Some,
        c2s: dir_status_of("c2s"@, c.c2s),
        s2c: dir_status_of("s2c"@, c.s2c),
    }
}

fn conn_status(c: &Conn, now_us: u64) -> (r: ConnStatus)
    requires
        c.wf(),
    ensures
        r@ == conn_status_of(c@, now_us),
{
    ConnStatus {
        conn_id: c.id.clone(),
        client: c.client.text(),
        server: c.server.text(),
        age_s: now_us.saturating_sub(c.first_seen_us) / 1_000_000,
        idle_s: now_us.saturating_sub(c.last_seen_us) / 1_000_000,
        closing: c.closed_at_us.is_some(),
        c2s: dir_status("c2s", &c.c2s),
        s2c: dir_status("s2c", &c.s2c),
    }
}

/// The connections of a list, one by one.
pub open spec fn conn_statuses_view(s: Seq<ConnStatus>) -> Seq<ConnStatusView> {
    Seq::new(s.len(), |i: int| s[i]@)
}

/// What there is to say of every tracked connection.
pub fn conn_statuses(tracker: &Tracker, now_us: u64) -> (r: Vec<ConnStatus>)
    requires
        tracker.wf(),
    ensures
        conn_statuses_view(r@) == tracker@.conns.map_values(
            |c: ConnView| conn_status_of(c, now_us),
        ),
{
    let ghost f = |c: ConnView| conn_status_of(c, now_us);
    let ghost all = tracker@.conns.map_values(f);
    let mut out: Vec<ConnStatus> = Vec::new();
    let mut i: usize = 0;
    while i < tracker.conns.len()
        invariant
            tracker.wf(),
            f == (|c: ConnView| conn_status_of(c, now_us)),
            all == tracker@.conns.map_values(f),
            i <= tracker.conns@.len(),
            conn_statuses_view(out@) == all.take(i as int),
        decreases tracker.conns@.len() - i,
    {
        let ghost before = conn_statuses_view(out@);
        let s = conn_status(&tracker.conns[i], now_us);
        let ghost sv = s@;
        out.push(s);
        proof {
            assert(sv == all[i as int]);
            assert(conn_statuses_view(out@) =~= before.push(sv));
            assert(all.take(i + 1) =~= all.take(i as int).push(all[i as int]));
        }
        i += 1;
    }
    assert(all.take(all.len() as int) =~= all);
    out
}

// ---------------------------------------------------------------------------
// Health
// ---------------------------------------------------------------------------

/// How the keeper is doing. The counters wrap.
#[derive(Debug, Clone, Copy, PartialEq, Eq, Structural)]
pub struct Health {
    pub conns: usize,
    pub dirs: usize,
    /// Directions that would snapshot cleanly right now.
    pub dirs_exact: usize,
    pub dirs_poisoned: usize,
    /// A packet that was never seen shows up here as a reassembly gap: the table
    /// for that direction is no longer trustworthy.
    pub reassembly_gaps: u64,
    pub segments: u64,
    pub conns_evicted: u64,
    pub conns_rejected_table_full: u64,
    pub capture_read_errors: u64,
    pub ring_packets: usize,
    pub ring_bytes: usize,
    pub ring_span_s: Option<u64>,
    pub ring_oldest_unix_us: Option<u64>,
}

/// The directions of a list of connections, client's first.
pub open spec fn directions_of(s: Seq<ConnView>) -> Seq<DirTrackView>
    decreases s.len(),
{
    if s.len() == 0 {
        Seq::empty()
    } else {
        directions_of(s.drop_last()) + seq![s.last().c2s, s.last().s2c]
    }
}

/// How many directions can be snapshotted: frame boundaries and the table are
/// known in full.
pub open spec fn clean_count(ds: Seq<DirTrackView>) -> nat
    decreases ds.len(),
{
    if ds.len() == 0 {
        0
    } else {
        clean_count(ds.drop_last()) + if snapshottable(ds.last().dir) {
            1nat
        } else {
            0nat
        }
    }
}

/// How many directions have lost their state.
pub open spec fn poisoned_count(ds: Seq<DirTrackView>) -> nat
    decreases ds.len(),
{
    if ds.len() == 0 {
        0
    } else {
        poisoned_count(ds.drop_last()) + if ds.last().dir.poisoned {
            1nat
        } else {
            0nat
        }
    }
}

/// The gaps in all directions together.
pub open spec fn gap_count(ds: Seq<DirTrackView>) -> nat
    decreases ds.len(),
{
    if ds.len() == 0 {
        0
    } else {
        gap_count(ds.drop_last()) + ds.last().dir.reasm.gaps as nat
    }
}

/// How the keeper is doing.
pub open spec fn health_of(
    conns: Seq<ConnView>,
    segments: u64,
    evicted: u64,
    rejected_full: u64,
    ring: RingView,
    read_errors: u64,
    now_us: u64,
) -> Health {
    let ds = directions_of(conns);
    Health {
        conns: conns.len() as usize,
        dirs: counted(0, ds.len() as int),
        dirs_exact: counted(0, clean_count(ds) as int),
        dirs_poisoned: counted(0, poisoned_count(ds) as int),
        reassembly_gaps: add64(0, gap_count(ds) as int),
        segments,
        conns_evicted: evicted,
        conns_rejected_table_full: rejected_full,
        capture_read_errors: read_errors,
        ring_packets: ring.q.len() as usize,
        ring_bytes: held(ring.q) as usize,
        ring_span_s: match oldest(ring) {
            Some(o) => Some(elapsed(now_us, o) / 1_000_000),
            None => None,
        },
        ring_oldest_unix_us: oldest(ring),
    }
}

/// What is counted of the directions.
#[derive(Clone, Copy)]
struct DirCounts {
    dirs: usize,
    exact: usize,
    poisoned: usize,
    gaps: u64,
}

/// What is counted of a list of directions.
spec fn counts_of(ds: Seq<DirTrackView>) -> DirCounts {
    DirCounts {
        dirs: counted(0, ds.len() as int),
        exact: counted(0, clean_count(ds) as int),
        poisoned: counted(0, poisoned_count(ds) as int),
        gaps: add64(0, gap_count(ds) as int),
    }
}

/// One more direction is counted.
fn count_dir(k: &mut DirCounts, t: &DirTrack, Ghost(ds): Ghost<Seq<DirTrackView>>)
    requires
        *old(k) == counts_of(ds),
    ensures
        *final(k) == counts_of(ds.push(t@)),
{
    proof {
        assert(ds.push(t@).drop_last() =~= ds);
        lemma_counted_twice(0, ds.len() as int, 1);
        lemma_counted_twice(0, clean_count(ds) as int, 1);
        lemma_counted_twice(0, poisoned_count(ds) as int, 1);
        lemma_add64_twice(0, gap_count(ds) as int, t@.dir.reasm.gaps as int);
    }
    k.dirs = count_up(k.dirs, 1);
    k.gaps = off_plus(k.gaps, t.dir.reasm.gaps_declared());
    if t.dir.poisoned {
        k.poisoned = count_up(k.poisoned, 1);
    }
    if t.dir.is_snapshottable() {
        k.exact = count_up(k.exact, 1);
    }
}

fn count_dirs(conns: &[Conn]) -> (r: DirCounts)
    ensures
        r == counts_of(directions_of(conn_list_view(conns@))),
{
    let ghost cs = conn_list_view(conns@);
    let mut k = DirCounts { dirs: 0, exact: 0, poisoned: 0, gaps: 0 };
    let mut i: usize = 0;
    proof {
        lemma_count_nothing(0);
        assert(cs.take(0) =~= Seq::<ConnView>::empty());
    }
    while i < conns.len()
        invariant
            i <= conns@.len(),
            cs == conn_list_view(conns@),
            k == counts_of(directions_of(cs.take(i as int))),
        decreases conns@.len() - i,
    {
        let c = &conns[i];
        let ghost ds = directions_of(cs.take(i as int));
        count_dir(&mut k, &c.c2s, Ghost(ds));
        count_dir(&mut k, &c.s2c, Ghost(ds.push(c@.c2s)));
        proof {
            assert(cs.take(i + 1).drop_last() =~= cs.take(i as int));
            assert(cs.take(i + 1).last() == c@);
            assert(directions_of(cs.take(i + 1)) =~= ds.push(c@.c2s).push(c@.s2c));
        }
        i += 1;
    }
    assert(cs.take(cs.len() as int) =~= cs);
    k
}

/// How the keeper is doing. When `dirs_exact` equals `dirs`, every tracked
/// direction will snapshot cleanly.
pub fn health(tracker: &Tracker, ring: &Ring, read_errors: u64, now_us: u64) -> (r: Health)
    requires
        tracker.wf(),
        ring.wf(),
    ensures
        r == health_of(
            tracker@.conns,
            tracker@.segments,
            tracker@.evicted,
            tracker@.rejected_full,
            ring@,
            read_errors,
            now_us,
        ),
        2 * tracker@.conns.len() <= usize::MAX ==> health_promise(
            r,
            tracker@.conns,
            oldest(ring@),
        ),
{
    proof {
        if 2 * tracker@.conns.len() <= usize::MAX {
            law_all_exact_snapshots_cleanly(
                tracker@.conns,
                tracker@.segments,
                tracker@.evicted,
                tracker@.rejected_full,
                ring@,
                read_errors,
                now_us,
            );
        }
    }
    let k: DirCounts = count_dirs(&tracker.conns);
    let oldest_us: Option<u64> = ring.oldest_us();
    Health {
        conns: tracker.len(),
        dirs: k.dirs,
        dirs_exact: k.exact,
        dirs_poisoned: k.poisoned,
        reassembly_gaps: k.gaps,
        segments: tracker.segments,
        conns_evicted: tracker.evicted,
        conns_rejected_table_full: tracker.rejected_full,
        capture_read_errors: read_errors,
        ring_packets: ring.q.len(),
        ring_bytes: ring.bytes,
        ring_span_s: match oldest_us {
            Some(o) => Some(now_us.saturating_sub(o) / 1_000_000),
            None => None,
        },
        ring_oldest_unix_us: oldest_us,
    }
}

proof fn lemma_clean_bound(ds: Seq<DirTrackView>)
    ensures
        clean_count(ds) <= ds.len(),
        clean_count(ds) == ds.len() <==> forall|i: int|
            0 <= i < ds.len() ==> snapshottable((#[trigger] ds[i]).dir),
    decreases ds.len(),
{
    if ds.len() > 0 {
        let p = ds.drop_last();
        lemma_clean_bound(p);
        if clean_count(ds) == ds.len() {
            assert forall|i: int| 0 <= i < ds.len() implies snapshottable(
                (#[trigger] ds[i]).dir,
            ) by {
                if i < p.len() {
                    assert(ds[i] == p[i]);
                }
            }
        }
        if forall|i: int| 0 <= i < ds.len() ==> snapshottable((#[trigger] ds[i]).dir) {
            assert forall|i: int| 0 <= i < p.len() implies snapshottable((#[trigger] p[i]).dir) by {
                assert(p[i] == ds[i]);
            }
            assert(ds.last() == ds[ds.len() - 1]);
        }
    }
}

proof fn lemma_directions(conns: Seq<ConnView>)
    ensures
        directions_of(conns).len() == 2 * conns.len(),
        forall|i: int|
            0 <= i < conns.len() ==> directions_of(conns)[2 * i] == (#[trigger] conns[i]).c2s
                && directions_of(conns)[2 * i + 1] == conns[i].s2c,
    decreases conns.len(),
{
    if conns.len() > 0 {
        let p = conns.drop_last();
        lemma_directions(p);
        assert forall|i: int| 0 <= i < conns.len() implies directions_of(conns)[2 * i]
            == (#[trigger] conns[i]).c2s && directions_of(conns)[2 * i + 1] == conns[i].s2c by {
            if i < p.len() {
                assert(p[i] == conns[i]);
            }
        }
    }
}

/// Whether the ring has the unframed bytes of both directions.
pub open spec fn covered(c: ConnView, ring_oldest_us: Option<u64>) -> bool {
    pending_covered(c.c2s.pending_since_us, ring_oldest_us) && pending_covered(
        c.s2c.pending_since_us,
        ring_oldest_us,
    )
}

/// Whether both directions of a connection are offered as usable.
pub open spec fn offered(c: ConnView, ring_oldest_us: Option<u64>) -> bool {
    let dirs = conn_snapshot_of(c, ring_oldest_us).dirs;
    dirs[0].usable && dirs[1].usable
}

/// What a health report promises: there are two directions to a connection, no more
/// of them are exact than there are, and when all are, every tracked direction
/// snapshots cleanly, provided the ring still has the bytes that are not framed
/// yet.
pub open spec fn health_promise(
    h: Health,
    conns: Seq<ConnView>,
    ring_oldest_us: Option<u64>,
) -> bool {
    &&& h.dirs == 2 * h.conns
    &&& h.dirs_exact <= h.dirs
    &&& h.dirs_exact == h.dirs ==> forall|i: int|
        0 <= i < conns.len() && covered(#[trigger] conns[i], ring_oldest_us) ==> offered(
            conns[i],
            ring_oldest_us,
        )
}

/// What a health report promises holds. The numbers have to fit.
pub proof fn law_all_exact_snapshots_cleanly(
    conns: Seq<ConnView>,
    segments: u64,
    evicted: u64,
    rejected_full: u64,
    ring: RingView,
    read_errors: u64,
    now_us: u64,
)
    requires
        2 * conns.len() <= usize::MAX,
    ensures
        ({
            let h = health_of(
                conns,
                segments,
                evicted,
                rejected_full,
                ring,
                read_errors,
                now_us,
            );
            health_promise(h, conns, oldest(ring))
        }),
{
    let ds = directions_of(conns);
    lemma_directions(conns);
    lemma_clean_bound(ds);
    lemma_small_mod(ds.len(), (usize::MAX + 1) as nat);
    lemma_small_mod(clean_count(ds), (usize::MAX + 1) as nat);
    if clean_count(ds) == ds.len() {
        assert forall|i: int|
            0 <= i < conns.len() && covered(#[trigger] conns[i], oldest(ring)) implies offered(
            conns[i],
            oldest(ring),
        ) by {
            assert(snapshottable(ds[2 * i].dir));
            assert(snapshottable(ds[2 * i + 1].dir));
        }
    }
}

/// The status of a direction says what its snapshot says.
pub open spec fn says_the_same(d: DirStatusView, s: DirSnapshotView) -> bool {
    &&& d.dir == s.dir
    &&& d.next_frame_seq == s.next_frame_seq
    &&& d.table_entries == s.entries.len()
    &&& d.table_size == s.table_size
    &&& d.max_table_size == s.max_table_size
    &&& d.capacity_observed == s.capacity_observed
    &&& s.usable ==> d.snapshottable && d.exact && !d.poisoned && !d.desynced
        && !d.table_untracked
}

/// What is said of a connection is what its snapshot holds, direction by direction.
pub proof fn law_status_agrees_with_the_snapshot(
    c: ConnView,
    now_us: u64,
    ring_oldest_us: Option<u64>,
)
    ensures
        ({
            let st = conn_status_of(c, now_us);
            let sn = conn_snapshot_of(c, ring_oldest_us);
            &&& st.conn_id == sn.conn_id
            &&& st.client == sn.client
            &&& st.server == sn.server
            &&& says_the_same(st.c2s, sn.dirs[0])
            &&& says_the_same(st.s2c, sn.dirs[1])
        }),
{
}

/// A connection's age is counted from when it was first seen and its idle time from
/// when it last was, in whole seconds. Both grow with the clock, and it is closing
/// once it was closed.
pub proof fn law_status_keeps_time(c: ConnView, age_us: u64, idle_us: u64, now_us: u64)
    requires
        c.first_seen_us + age_us == now_us,
        c.last_seen_us + idle_us == now_us,
    ensures
        ({
            let st = conn_status_of(c, now_us);
            &&& 1_000_000 * st.age_s <= age_us < 1_000_000 * st.age_s + 1_000_000
            &&& 1_000_000 * st.idle_s <= idle_us < 1_000_000 * st.idle_s + 1_000_000
            &&& c.first_seen_us <= c.last_seen_us ==> st.idle_s <= st.age_s
            &&& st.closing <==> c.closed_at_us is Some
        }),
{
}

/// A report counts each connection for what it is: one more adds one connection and
/// two directions, an exact direction for each that is snapshottable, a poisoned one
/// for each that is poisoned, and its gaps. The rest of the report does not change.
pub proof fn law_health_counts_each_connection(
    conns: Seq<ConnView>,
    c: ConnView,
    segments: u64,
    evicted: u64,
    rejected_full: u64,
    ring: RingView,
    read_errors: u64,
    now_us: u64,
)
    requires
        2 * conns.len() + 2 <= usize::MAX,
    ensures
        ({
            let h = health_of(
                conns,
                segments,
                evicted,
                rejected_full,
                ring,
                read_errors,
                now_us,
            );
            let more = health_of(
                conns.push(c),
                segments,
                evicted,
                rejected_full,
                ring,
                read_errors,
                now_us,
            );
            let one = |yes: bool|
                if yes {
                    1int
                } else {
                    0int
                };
            more == (Health {
                conns: (h.conns + 1) as usize,
                dirs: (h.dirs + 2) as usize,
                dirs_exact: (h.dirs_exact + one(snapshottable(c.c2s.dir)) + one(
                    snapshottable(c.s2c.dir),
                )) as usize,
                dirs_poisoned: (h.dirs_poisoned + one(c.c2s.dir.poisoned) + one(
                    c.s2c.dir.poisoned,
                )) as usize,
                reassembly_gaps: add64(
                    h.reassembly_gaps,
                    c.c2s.dir.reasm.gaps + c.s2c.dir.reasm.gaps,
                ),
                ..h
            })
        }),
        ({
            let h = health_of(
                conns,
                segments,
                evicted,
                rejected_full,
                ring,
                read_errors,
                now_us,
            );
            &&& h.segments == segments
            &&& h.conns_evicted == evicted
            &&& h.conns_rejected_table_full == rejected_full
            &&& h.capture_read_errors == read_errors
            &&& h.conns == conns.len()
            &&& h.ring_oldest_unix_us == oldest(ring)
        }),
{
    let ds = directions_of(conns);
    let all = directions_of(conns.push(c));
    let w = (usize::MAX + 1) as nat;
    assert(conns.push(c).drop_last() =~= conns);
    assert(all =~= ds.push(c.c2s).push(c.s2c));
    assert(all.drop_last() =~= ds.push(c.c2s));
    assert(all.drop_last().drop_last() =~= ds);
    lemma_directions(conns);
    lemma_clean_bound(ds);
    lemma_clean_bound(all);
    lemma_poisoned_bound(ds);
    lemma_poisoned_bound(all);
    lemma_small_mod(ds.len(), w);
    lemma_small_mod(all.len(), w);
    lemma_small_mod(clean_count(ds), w);
    lemma_small_mod(clean_count(all), w);
    lemma_small_mod(poisoned_count(ds), w);
    lemma_small_mod(poisoned_count(all), w);
    lemma_add64_twice(0, gap_count(ds) as int, c.c2s.dir.reasm.gaps + c.s2c.dir.reasm.gaps);
    assert(clean_count(all.drop_last()) == clean_count(ds) + if snapshottable(c.c2s.dir) {
        1nat
    } else {
        0nat
    });
    assert(poisoned_count(all.drop_last()) == poisoned_count(ds) + if c.c2s.dir.poisoned {
        1nat
    } else {
        0nat
    });
    assert(gap_count(all.drop_last()) == gap_count(ds) + c.c2s.dir.reasm.gaps);
}

proof fn lemma_poisoned_bound(ds: Seq<DirTrackView>)
    ensures
        poisoned_count(ds) <= ds.len(),
    decreases ds.len(),
{
    if ds.len() > 0 {
        lemma_poisoned_bound(ds.drop_last());
    }
}

} // verus!
