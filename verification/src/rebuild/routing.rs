//! Tables go where they belong: what a snapshot holds for a direction is what that
//! direction is given in a rebuild, and no other one is.
use vstd::prelude::*;

use crate::addr::laws::law_addresses_are_told_apart;
use crate::addr::{addr_text, lemma_addr_order, SocketAddr};
use crate::conn::{boundary_seq, fed, seeded, snapshottable, DirectionView};
use crate::hpack::laws::plain_table;
use crate::pkt::{tcp_flags, SegmentView};
use crate::reassembly::syn_noted;
use crate::rebuild::replay::{
    conn_for, conn_replayed, new_conn, opens_conn, segment_replayed, touched, DirStateView,
    RebuilderView,
};
use crate::rebuild::seeds::{dirs_added, seed_of, seeds_of, Route, SeedView};
use crate::snapshot::{
    law_str_round_trip, law_table_round_trip, read_back, written, ConnSnapshotView, DirSnapshotView,
};
use crate::tracker::laws::law_key_ignores_direction;
use crate::tracker::{
    conn_fed, conn_key, conn_snapshot_of, in_key_order, key_between, key_lt, lemma_key_order,
    seg_dst, seg_has, seg_src, ConnKey, ConnView, DirTrackView,
};

verus! {

/// The snapshot of all connections.
pub open spec fn snapshot_of(conns: Seq<ConnView>, ring_oldest_us: Option<u64>) -> Seq<
    ConnSnapshotView,
> {
    conns.map_values(|c: ConnView| conn_snapshot_of(c, ring_oldest_us))
}

/// The two directions of a connection's snapshot are named, carry each other's source
/// and destination, and lead from the client to the server and back.
pub proof fn law_snapshot_directions_are_opposite(c: ConnView, ring_oldest_us: Option<u64>)
    ensures
        ({
            let s = conn_snapshot_of(c, ring_oldest_us);
            &&& s.dirs.len() == 2
            &&& s.dirs[0].dir == "c2s"@
            &&& s.dirs[1].dir == "s2c"@
            &&& s.client == addr_text(c.client)
            &&& s.server == addr_text(c.server)
            &&& s.dirs[0].src == s.client
            &&& s.dirs[0].dst == s.server
            &&& s.dirs[1].src == s.dirs[0].dst
            &&& s.dirs[1].dst == s.dirs[0].src
            &&& s.conn_id == c.id
            &&& s.first_seen_unix_us == c.first_seen_us
        }),
{
}

/// A segment goes to the direction that its source says: the client's own, or else
/// the other one. The bytes of the other direction stay as they are.
pub proof fn law_segment_arrives_in_its_direction(c: ConnView, s: SegmentView, now_us: u64)
    ensures
        ({
            let src = SocketAddr { ip: s.src_ip, port: s.src_port };
            let after = conn_fed(c, s, now_us);
            let t = if src == c.client {
                c.c2s.dir
            } else {
                c.s2c.dir
            };
            let got = if src == c.client {
                after.c2s.dir
            } else {
                after.s2c.dir
            };
            let told = if seg_has(s, tcp_flags::SYN) {
                DirectionView { reasm: syn_noted(t.reasm, s.seq), ..t }
            } else {
                t
            };
            &&& src == c.client ==> after.s2c.dir.reasm == c.s2c.dir.reasm
            &&& src != c.client ==> after.c2s.dir.reasm == c.c2s.dir.reasm
            &&& s.payload.len() > 0 ==> got == fed(told, s.seq, s.payload, now_us).0
            &&& s.payload.len() == 0 ==> got == told
            &&& after.client == c.client
            &&& after.server == c.server
            &&& after.id == c.id
            &&& after.first_seen_us == c.first_seen_us
            &&& after.last_seen_us == now_us
        }),
{
}

/// The table and the boundary of a direction, as a seed has them: every name and
/// value in order, the capacity, and the number of the next frame's first byte.
pub open spec fn seed_holds(seed: SeedView, t: DirTrackView) -> bool {
    &&& seed.entries.len() == t.dir.dec.table.len()
    &&& forall|i: int|
        0 <= i < t.dir.dec.table.len() ==> {
            &&& (#[trigger] seed.entries[i]).name == t.dir.dec.table[i].name
            &&& seed.entries[i].value == t.dir.dec.table[i].value
        }
    &&& seed.max_size == t.dir.dec.max_size
    &&& seed.next_frame_seq == boundary_seq(t.dir)
    &&& seed.usable ==> snapshottable(t.dir)
    &&& seed.usable <==> seed.reason is None
}

proof fn lemma_two_added(m: Map<Route, SeedView>, a: DirSnapshotView, b: DirSnapshotView)
    ensures
        dirs_added(m, seq![a, b]) == m.insert((a.src, a.dst), seed_of(a)).insert(
            (b.src, b.dst),
            seed_of(b),
        ),
{
    let two = seq![a, b];
    assert(two.drop_last() =~= seq![a]);
    assert(seq![a].drop_last() =~= Seq::<DirSnapshotView>::empty());
    assert(dirs_added(m, two.drop_last().drop_last()) == m);
    assert(dirs_added(m, two.drop_last()) == m.insert((a.src, a.dst), seed_of(a)));
}

proof fn lemma_routes_differ(a: SocketAddr, b: SocketAddr, c: SocketAddr, d: SocketAddr)
    requires
        a != c || b != d,
    ensures
        (addr_text(a), addr_text(b)) != (addr_text(c), addr_text(d)),
{
    if addr_text(a) == addr_text(c) && addr_text(b) == addr_text(d) {
        law_addresses_are_told_apart(a, c);
        law_addresses_are_told_apart(b, d);
    }
}

#[verifier::rlimit(40)]
proof fn lemma_seed_kept(
    conns: Seq<ConnView>,
    ring_oldest_us: Option<u64>,
    i: int,
    from: SocketAddr,
    to: SocketAddr,
)
    requires
        0 <= i < conns.len(),
        in_key_order(conns),
        conns[i].client != conns[i].server,
        (from == conns[i].client && to == conns[i].server) || (from == conns[i].server && to
            == conns[i].client),
    ensures
        ({
            let seeds = seeds_of(snapshot_of(conns, ring_oldest_us));
            let dirs = conn_snapshot_of(conns[i], ring_oldest_us).dirs;
            let route = (addr_text(from), addr_text(to));
            &&& seeds.contains_key(route)
            &&& seeds[route] == seed_of(
                if from == conns[i].client {
                    dirs[0]
                } else {
                    dirs[1]
                },
            )
        }),
    decreases conns.len(),
{
    let n = conns.len() - 1;
    let front = conns.drop_last();
    let snaps = snapshot_of(conns, ring_oldest_us);
    let route = (addr_text(from), addr_text(to));
    let dirs = conn_snapshot_of(conns[n], ring_oldest_us).dirs;
    assert(snaps.drop_last() =~= snapshot_of(front, ring_oldest_us));
    assert(snaps.last() == conn_snapshot_of(conns[n], ring_oldest_us));
    let m = seeds_of(snapshot_of(front, ring_oldest_us));
    assert(dirs =~= seq![dirs[0], dirs[1]]);
    lemma_two_added(m, dirs[0], dirs[1]);
    if i < n {
        assert(in_key_order(front)) by {
            assert forall|a: int, b: int| 0 <= a < b < front.len() implies key_lt(
                #[trigger] conn_key(front[a]),
                #[trigger] conn_key(front[b]),
            ) by {
                assert(front[a] == conns[a] && front[b] == conns[b]);
                assert(key_lt(conn_key(conns[a]), conn_key(conns[b])));
            }
        }
        lemma_seed_kept(front, ring_oldest_us, i, from, to);
        assert(front[i] == conns[i]);
        assert(key_lt(conn_key(conns[i]), conn_key(conns[n])));
        lemma_key_order(conn_key(conns[i]), conn_key(conns[n]), conn_key(conns[i]));
        law_key_ignores_direction(conns[i].client, conns[i].server);
        law_key_ignores_direction(conns[n].client, conns[n].server);
        lemma_routes_differ(from, to, conns[n].client, conns[n].server);
        lemma_routes_differ(from, to, conns[n].server, conns[n].client);
        assert(route != (dirs[0].src, dirs[0].dst));
        assert(route != (dirs[1].src, dirs[1].dst));
    } else {
        lemma_routes_differ(conns[n].client, conns[n].server, conns[n].server, conns[n].client);
    }
}

/// A snapshot's tables go to the directions they were taken of. Take a snapshot of
/// tracked connections, and let a segment on one of them be met in a rebuild. The
/// seed found under the texts of the segment's own source and destination holds the
/// table and the boundary of the direction that the segment arrives in, which is the
/// client's where it comes from the client and the server's where it does not. If
/// the snapshot is usable, that is what the rebuild's direction is seeded with.
pub proof fn law_seed_is_of_the_arriving_direction(
    conns: Seq<ConnView>,
    ring_oldest_us: Option<u64>,
    i: int,
    s: SegmentView,
    t: DirStateView,
)
    requires
        0 <= i < conns.len(),
        in_key_order(conns),
        conns[i].client != conns[i].server,
        key_between(seg_src(s), seg_dst(s)) == key_between(conns[i].client, conns[i].server),
        !t.seeded,
    ensures
        ({
            let seeds = seeds_of(snapshot_of(conns, ring_oldest_us));
            let src = SocketAddr { ip: s.src_ip, port: s.src_port };
            let dst = SocketAddr { ip: s.dst_ip, port: s.dst_port };
            let route = (addr_text(src), addr_text(dst));
            let live = if src == conns[i].client {
                conns[i].c2s
            } else {
                conns[i].s2c
            };
            &&& seeds.contains_key(route)
            &&& seed_holds(seeds[route], live)
            &&& plain_table(live.dir.dec.table) && seeds[route].usable ==> touched(
                seeds,
                false,
                t,
                s,
            ).dir == seeded(t.dir, live.dir.dec.table, live.dir.dec.max_size, boundary_seq(live.dir))
        }),
{
    let c = conns[i];
    let src = seg_src(s);
    let dst = seg_dst(s);
    assert((src == c.client && dst == c.server) || (src == c.server && dst == c.client)) by {
        lemma_addr_order(src, dst);
        lemma_addr_order(c.client, c.server);
    }
    lemma_seed_kept(conns, ring_oldest_us, i, src, dst);
    let live = if src == c.client {
        c.c2s
    } else {
        c.s2c
    };
    let table = live.dir.dec.table;
    assert forall|k: int| 0 <= k < table.len() implies {
        &&& read_back(written((#[trigger] table[k]).name))
            == table[k].name
        &&& read_back(written(table[k].value)) == table[k].value
    } by {
        law_str_round_trip(table[k].name);
        law_str_round_trip(table[k].value);
    }
    if plain_table(table) {
        law_table_round_trip(table);
    }
}

/// A rebuilt connection has its ends from the packets. The sender of its first segment
/// is the client, its time starts with that segment, and only a bare SYN counts as
/// having seen the start. A direction goes between the ends and the stations of the
/// first segment that is met in it, and keeps them.
pub proof fn law_ends_come_from_the_first_segment(
    seeds: Map<Route, SeedView>,
    saw_syn: bool,
    t: DirStateView,
    s: SegmentView,
    ts: u64,
)
    ensures
        ({
            let c = new_conn(s, ts);
            let after = touched(seeds, saw_syn, t, s);
            &&& c.client.ip == s.src_ip && c.client.port == s.src_port
            &&& c.server.ip == s.dst_ip && c.server.port == s.dst_port
            &&& c.first_ts == ts && c.last_ts == ts
            &&& c.saw_syn <==> seg_has(s, tcp_flags::SYN) && !seg_has(s, tcp_flags::ACK)
            &&& c.c2s.ep is None && c.s2c.ep is None && !c.c2s.seeded && !c.s2c.seeded
            &&& c.c2s.out.len() == 0 && c.s2c.out.len() == 0
            &&& t.ep is Some ==> after.ep == t.ep
            &&& t.ep is None ==> (after.ep matches Some(e) && e.src_ip == s.src_ip && e.dst_ip
                == s.dst_ip && e.src_port == s.src_port && e.dst_port == s.dst_port && e.eth_src
                == s.eth_src && e.eth_dst == s.eth_dst)
            &&& after.out == t.out && after.seeded
        }),
{
}

/// What was sent one way and what comes back meet the same connection. The segment
/// that comes next between the same two ends, either way, finds the connection as the
/// one before it left it, unless it opens a new one.
pub proof fn law_next_segment_finds_the_connection(
    r: RebuilderView,
    s: SegmentView,
    next: SegmentView,
    ts: u64,
    later: u64,
)
    requires
        r.conns.len() <= usize::MAX,
        forall|k: ConnKey| #[trigger] r.at.contains_key(k) ==> r.at[k] < r.conns.len(),
        (seg_src(next) == seg_src(s) && seg_dst(next) == seg_dst(s)) || (seg_src(next) == seg_dst(s)
            && seg_dst(next) == seg_src(s)),
    ensures
        ({
            let after = segment_replayed(r, s, ts);
            let bare_syn = seg_has(next, tcp_flags::SYN) && !seg_has(next, tcp_flags::ACK);
            &&& opens_conn(after, next) <==> bare_syn
            &&& !bare_syn ==> conn_for(after, next, later) == conn_replayed(
                r.seeds,
                conn_for(r, s, ts),
                s,
                ts,
            )
            &&& bare_syn ==> conn_for(after, next, later) == new_conn(next, later)
            &&& after.conns.len() == r.conns.len() + if opens_conn(r, s) {
                1nat
            } else {
                0nat
            }
            &&& forall|i: int|
                0 <= i < r.conns.len() && (opens_conn(r, s) || i != r.at[key_between(
                    seg_src(s),
                    seg_dst(s),
                )]) ==> #[trigger] after.conns[i] == r.conns[i]
        }),
{
    law_key_ignores_direction(seg_src(s), seg_dst(s));
}

} // verus!
