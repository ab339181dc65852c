//! Who is taken for the client, and how long a connection is kept.
use vstd::prelude::*;

use crate::addr::SocketAddr;
use crate::pkt::{tcp_flags, SegmentView};
use crate::tracker::{conn_alive, conn_fed, opened_conn, seg_has, ConnView, TrackerView};

verus! {

/// Whether a segment opens a connection: a SYN that acknowledges nothing.
pub open spec fn opens(s: SegmentView) -> bool {
    seg_has(s, tcp_flags::SYN) && !seg_has(s, tcp_flags::ACK)
}

/// Whether two segments go opposite ways between the same two ends.
pub open spec fn opposite(a: SegmentView, b: SegmentView) -> bool {
    a.src_ip == b.dst_ip && a.src_port == b.dst_port && a.dst_ip == b.src_ip && a.dst_port
        == b.src_port
}

/// The client of a new connection is the end that opens it. Where nobody was seen to
/// open it, it is the end that talks to a server port, whichever way the first
/// segment goes. The other end is the server.
pub proof fn law_client_does_not_depend_on_who_is_heard_first(
    t: TrackerView,
    a: SegmentView,
    b: SegmentView,
    now_us: u64,
)
    requires
        opposite(a, b),
    ensures
        ({
            let src = SocketAddr { ip: a.src_ip, port: a.src_port };
            let dst = SocketAddr { ip: a.dst_ip, port: a.dst_port };
            let c = opened_conn(t, a, now_us);
            let d = opened_conn(t, b, now_us);
            &&& (c.client == src && c.server == dst) || (c.client == dst && c.server == src)
            &&& opens(a) ==> c.client == src
            &&& !opens(a) && t.server_ports.contains(a.dst_port) ==> c.client == src
            &&& !opens(a) && t.server_ports.contains(a.src_port) && !t.server_ports.contains(
                a.dst_port,
            ) ==> c.client == dst
            &&& !t.server_ports.contains(a.src_port) && !t.server_ports.contains(a.dst_port)
                ==> c.client == src
            &&& !opens(a) && !opens(b) && (t.server_ports.contains(a.src_port)
                != t.server_ports.contains(a.dst_port)) ==> c.client == d.client && c.server
                == d.server && c.id == d.id
            &&& c.first_seen_us == now_us && c.last_seen_us == now_us && c.closed_at_us is None
        }),
{
}

/// A connection closes with the first segment that ends or resets it, and the time of
/// that segment stays, whatever comes later.
pub proof fn law_first_end_closes(c: ConnView, s: SegmentView, next: SegmentView, at: u64, later: u64)
    requires
        c.closed_at_us is None,
    ensures
        ({
            let one = conn_fed(c, s, at);
            let two = conn_fed(one, next, later);
            let ends = seg_has(s, tcp_flags::FIN) || seg_has(s, tcp_flags::RST);
            &&& one.closed_at_us is Some <==> ends
            &&& ends ==> one.closed_at_us == Some(at) && two.closed_at_us == Some(at)
            &&& one.last_seen_us == at
            &&& two.last_seen_us == later
        }),
{
}

/// A connection that was heard of is kept as long as the idle time lets it, to the
/// last microsecond, and one that is closed for ten seconds more and no longer.
/// Once it is let go, waiting does not bring it back.
pub proof fn law_connections_are_kept_for_their_time(
    c: ConnView,
    s: SegmentView,
    at: u64,
    wait: u64,
    more: u64,
    idle_us: u64,
)
    requires
        at + wait + more <= u64::MAX,
        c.closed_at_us is None,
    ensures
        ({
            let fed = conn_fed(c, s, at);
            let now = (at + wait) as u64;
            let ends = seg_has(s, tcp_flags::FIN) || seg_has(s, tcp_flags::RST);
            &&& !ends ==> (conn_alive(fed, now, idle_us) <==> wait <= idle_us)
            &&& ends ==> (conn_alive(fed, now, idle_us) <==> wait <= idle_us && wait < 10_000_000)
            &&& !conn_alive(fed, now, idle_us) ==> !conn_alive(fed, (now + more) as u64, idle_us)
        }),
{
}

} // verus!
