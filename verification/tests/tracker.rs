//! Tracking connections and taking snapshots of them.

use h2core::addr::{IpAddr, SocketAddr};
use h2core::conn::Direction;
use h2core::frame::{build_frame, flags, FrameType, PREFACE};
use h2core::pkt::{tcp_flags, TcpSegment};
use h2core::snapshot::{DirSnapshot, Str};
use h2core::tracker::{Tracker, CLOSED_LINGER_US};

const CLIENT_IP: &str = "10.0.0.1";
const SERVER_IP: &str = "10.0.0.2";
const BASE: u32 = 500_000;

fn client_ip() -> IpAddr {
    IpAddr::v4(10, 0, 0, 1)
}

fn server_ip() -> IpAddr {
    IpAddr::v4(10, 0, 0, 2)
}

fn seg<'a>(from_client: bool, seq: u32, fl: u8, payload: &'a [u8]) -> TcpSegment<'a> {
    let (src_ip, dst_ip, src_port, dst_port) = if from_client {
        (client_ip(), server_ip(), 41234u16, 7777u16)
    } else {
        (server_ip(), client_ip(), 7777, 41234)
    };
    TcpSegment {
        eth_dst: [0; 6],
        eth_src: [0; 6],
        src_ip,
        dst_ip,
        src_port,
        dst_port,
        seq,
        ack: 0,
        flags: fl,
        payload,
    }
}

fn lit_indexed(name: &[u8], value: &[u8]) -> Vec<u8> {
    let mut v = vec![0x40];
    v.push(name.len() as u8);
    v.extend_from_slice(name);
    v.push(value.len() as u8);
    v.extend_from_slice(value);
    v
}

fn client_stream() -> Vec<u8> {
    let mut s = Vec::new();
    s.extend_from_slice(&PREFACE);
    s.extend_from_slice(&build_frame(FrameType::SETTINGS, 0, 0, &[0, 1, 0, 0, 16, 0]));
    let mut b = vec![0x82, 0x87, 0x84];
    b.extend_from_slice(&lit_indexed(b":authority", b"nrf.5gc"));
    b.extend_from_slice(&lit_indexed(b"3gpp-sbi-target-apiroot", b"https://udm"));
    s.extend_from_slice(&build_frame(FrameType::HEADERS, flags::END_HEADERS, 1, &b));
    s
}

#[test]
fn tracks_a_connection_and_snapshots_an_aligned_table() {
    let mut t = Tracker::new(vec![7777], 100, 300, usize::MAX);
    t.on_segment(&seg(true, BASE - 1, tcp_flags::SYN, &[]), 1_000);
    t.on_segment(&seg(false, 900_000, tcp_flags::SYN | tcp_flags::ACK, &[]), 1_100);

    let stream = client_stream();
    t.on_segment(&seg(true, BASE, tcp_flags::ACK, &stream), 2_000);

    let (conns, usable, degraded) = t.snapshot(Some(0));
    assert_eq!(conns.len(), 1);
    assert_eq!((usable, degraded), (1, 0));

    let c = &conns[0];
    assert_eq!(c.client, format!("{CLIENT_IP}:41234"));
    assert_eq!(c.server, format!("{SERVER_IP}:7777"));

    let c2s = c.dirs.iter().find(|d| d.dir == "c2s").unwrap();
    assert!(c2s.usable, "reason: {:?}", c2s.reason);
    // Newest first: index 62 is the last insertion.
    let names: Vec<String> = c2s.entries.iter().map(|e| match &e.n {
        Str::Text(s) => s.clone(),
        Str::Hex { hex } => hex.clone(),
    }).collect();
    assert_eq!(names, vec!["3gpp-sbi-target-apiroot", ":authority"]);
    // The whole stream was consumed, so the next frame starts right after.
    assert_eq!(c2s.next_frame_seq, BASE.wrapping_add(stream.len() as u32));
}

/// The snapshot a rebuilder consumes has to be refused when the tables
/// cannot be vouched for, rather than handed over and trusted.
#[test]
fn a_gap_makes_the_direction_unusable() {
    let mut t = Tracker::new(vec![7777], 100, 300, usize::MAX);
    t.on_segment(&seg(true, BASE - 1, tcp_flags::SYN, &[]), 1_000);
    let stream = client_stream();
    t.on_segment(&seg(true, BASE, tcp_flags::ACK, &stream), 2_000);

    // A segment far ahead leaves a hole that never fills.
    let far = BASE + stream.len() as u32 + 10_000;
    t.on_segment(&seg(true, far, tcp_flags::ACK, b"\x00\x00\x00\x00\x04\x00\x00\x00\x00"), 3_000);
    t.tick(30_000_000);

    let (conns, usable, degraded) = t.snapshot(Some(0));
    assert_eq!((usable, degraded), (0, 1));
    let c2s = conns[0].dirs.iter().find(|d| d.dir == "c2s").unwrap();
    assert!(!c2s.usable);
    assert!(c2s.reason.as_deref().unwrap().contains("gap"), "{:?}", c2s.reason);
}

/// Joining an already-established connection is honest about it: the table
/// is not fully known, so the snapshot is not offered as usable.
#[test]
fn midstream_join_is_reported_as_not_usable() {
    let mut t = Tracker::new(vec![7777], 100, 300, usize::MAX);
    let stream = client_stream();
    // No SYN, and we start partway in.
    t.on_segment(&seg(true, BASE, tcp_flags::ACK, &stream[30..]), 2_000);

    let (conns, usable, _) = t.snapshot(Some(0));
    assert_eq!(usable, 0);
    let c2s = conns[0].dirs.iter().find(|d| d.dir == "c2s").unwrap();
    assert!(!c2s.usable);
}

/// Port reuse must start a fresh connection, not continue the old table.
#[test]
fn port_reuse_starts_a_new_connection() {
    let mut t = Tracker::new(vec![7777], 100, 300, usize::MAX);
    t.on_segment(&seg(true, BASE - 1, tcp_flags::SYN, &[]), 1_000);
    t.on_segment(&seg(true, BASE, tcp_flags::ACK, &client_stream()), 2_000);
    let first_id = t.snapshot(Some(0)).0[0].conn_id.clone();

    // Same 5-tuple, new SYN: a different connection.
    t.on_segment(&seg(true, 7_000_000, tcp_flags::SYN, &[]), 9_000);
    let (conns, _, _) = t.snapshot(Some(0));
    assert_eq!(conns.len(), 1);
    assert_ne!(conns[0].conn_id, first_id, "must not reuse the old connection id");
    assert!(conns[0].dirs[0].entries.is_empty(), "table must start empty");
}

/// Pending bytes older than the capture ring cannot be in the pcap, so the
/// direction must not be offered as usable.
#[test]
fn pending_bytes_outside_the_ring_are_refused() {
    let mut t = Tracker::new(vec![7777], 100, 300, usize::MAX);
    t.on_segment(&seg(true, BASE - 1, tcp_flags::SYN, &[]), 1_000);
    let stream = client_stream();
    // Deliver a partial frame: the parser keeps the tail buffered.
    let cut = stream.len() - 4;
    t.on_segment(&seg(true, BASE, tcp_flags::ACK, &stream[..cut]), 2_000);

    // Ring only goes back to t=5_000, after those bytes arrived.
    let (conns, usable, _) = t.snapshot(Some(5_000));
    assert_eq!(usable, 0);
    let c2s = conns[0].dirs.iter().find(|d| d.dir == "c2s").unwrap();
    assert!(c2s.reason.as_deref().unwrap().contains("ring"), "{:?}", c2s.reason);

    // With a ring that covers them, it is usable again.
    let (_, usable2, _) = t.snapshot(Some(0));
    assert_eq!(usable2, 1);
}

fn c2s_of(t: &Tracker, ring: Option<u64>) -> DirSnapshot {
    let (mut conns, _, _) = t.snapshot(ring);
    let i = conns[0].dirs.iter().position(|d| d.dir == "c2s").unwrap();
    conns[0].dirs.remove(i)
}

/// Every direction that is refused says why.
#[test]
fn refusals_have_reasons() {
    // A SYN alone: the preface has not been seen, so no boundary is known.
    let mut t = Tracker::new(vec![7777], 100, 300, usize::MAX);
    t.on_segment(&seg(true, BASE - 1, tcp_flags::SYN, &[]), 1_000);
    let d = c2s_of(&t, Some(0));
    assert!(!d.usable);
    assert_eq!(d.reason.as_deref(), Some("frame boundary unknown"));

    // A header block that has only begun.
    let mut t = Tracker::new(vec![7777], 100, 300, usize::MAX);
    t.on_segment(&seg(true, BASE - 1, tcp_flags::SYN, &[]), 1_000);
    let mut s = PREFACE.to_vec();
    s.extend_from_slice(&build_frame(FrameType::HEADERS, 0, 1, &[0x82]));
    t.on_segment(&seg(true, BASE, tcp_flags::ACK, &s), 2_000);
    let d = c2s_of(&t, Some(0));
    assert!(!d.usable);
    assert_eq!(d.reason.as_deref(), Some("in the middle of a header block"));

    // A table that is larger than what is tracked.
    let mut t = Tracker::new(vec![7777], 100, 300, 100);
    t.on_segment(&seg(true, BASE - 1, tcp_flags::SYN, &[]), 1_000);
    t.on_segment(&seg(true, BASE, tcp_flags::ACK, &client_stream()), 2_000);
    let d = c2s_of(&t, Some(0));
    assert!(!d.usable && d.reason.is_some());
    assert!(d.entries.is_empty());
}

#[test]
fn the_server_is_where_the_known_port_is() {
    let mut t = Tracker::new(vec![7777], 100, 300, usize::MAX);
    // First seen from the server, mid-stream.
    t.on_segment(&seg(false, 5, tcp_flags::ACK, b"x"), 1_000);
    let c = t.iter().next().unwrap();
    assert_eq!(c.client, SocketAddr::new(client_ip(), 41234));
    assert_eq!(c.server, SocketAddr::new(server_ip(), 7777));
}

#[test]
fn idle_connections_are_evicted() {
    let mut t = Tracker::new(vec![7777], 100, 300, usize::MAX);
    t.on_segment(&seg(true, BASE - 1, tcp_flags::SYN, &[]), 1_000);
    t.tick(300_000_000);
    assert_eq!(t.len(), 1);
    t.tick(300_001_001);
    assert_eq!(t.len(), 0);
    assert_eq!(t.evicted, 1);
}

#[test]
fn closed_connections_linger_a_while() {
    let mut t = Tracker::new(vec![7777], 100, 300, usize::MAX);
    t.on_segment(&seg(true, BASE - 1, tcp_flags::SYN, &[]), 1_000);
    t.on_segment(&seg(true, BASE, tcp_flags::RST, &[]), 2_000);
    t.tick(CLOSED_LINGER_US + 1_999);
    assert_eq!(t.len(), 1);
    t.tick(CLOSED_LINGER_US + 2_000);
    assert_eq!(t.len(), 0);
}

#[test]
fn a_full_table_rejects_newcomers() {
    let mut t = Tracker::new(vec![7777], 1, 300, usize::MAX);
    t.on_segment(&seg(true, BASE - 1, tcp_flags::SYN, &[]), 1_000);
    let mut other = seg(true, 1, tcp_flags::SYN, &[]);
    other.src_port = 41235;
    t.on_segment(&other, 1_001);
    assert_eq!(t.len(), 1);
    assert_eq!(t.rejected_full, 1);
    assert_eq!(t.segments, 2);
}

/// The capacity that one side announces bounds the other side's table.
#[test]
fn announced_capacities_cross_over() {
    let mut t = Tracker::new(vec![7777], 100, 300, usize::MAX);
    t.on_segment(&seg(true, BASE - 1, tcp_flags::SYN, &[]), 1_000);
    t.on_segment(&seg(false, 900_000, tcp_flags::SYN | tcp_flags::ACK, &[]), 1_100);
    let mut s = PREFACE.to_vec();
    s.extend_from_slice(&build_frame(FrameType::SETTINGS, 0, 0, &[0, 1, 0, 0, 1, 0]));
    t.on_segment(&seg(true, BASE, tcp_flags::ACK, &s), 2_000);
    let c = t.iter().next().unwrap();
    assert_eq!(c.s2c.dir.dec.max_size(), 256);
    assert_eq!(c.c2s.dir.dec.max_size(), 4096);
}

/// A usable snapshot restores a direction that reads on as the live one.
#[test]
fn a_usable_snapshot_restores_the_direction() {
    let mut t = Tracker::new(vec![7777], 100, 300, usize::MAX);
    t.on_segment(&seg(true, BASE - 1, tcp_flags::SYN, &[]), 1_000);
    t.on_segment(&seg(true, BASE, tcp_flags::ACK, &client_stream()), 2_000);
    let d = c2s_of(&t, Some(0));
    assert!(d.usable);

    let mut back = Direction::joined_midstream(true);
    back.seed_from_snapshot(d.fields(), d.max_table_size, d.next_frame_seq);
    let more = build_frame(FrameType::HEADERS, flags::END_HEADERS, 3, &[0xbe, 0xbf]);
    let got = back.feed(d.next_frame_seq, &more, 0);
    let b = got[0].decoded.as_ref().unwrap();
    assert!(b.exact);
    assert_eq!(b.fields[0].name_str(), "3gpp-sbi-target-apiroot");
    assert_eq!(b.fields[1].value_str(), "nrf.5gc");
}

/// Bytes that wait beyond a hole are pending since they arrived, also once the
/// hole is filled.
#[test]
fn bytes_beyond_a_hole_are_pending_since_they_arrived() {
    let mut t = Tracker::new(vec![7777], 100, 300, usize::MAX);
    t.on_segment(&seg(true, BASE - 1, tcp_flags::SYN, &[]), 1_000);
    let mut stream = client_stream();
    // A frame that is not complete comes last.
    let last = build_frame(FrameType::HEADERS, flags::END_HEADERS, 3, &[0x82; 8]);
    stream.extend_from_slice(&last[..12]);
    let hole = 40usize;
    t.on_segment(&seg(true, BASE + hole as u32, tcp_flags::ACK, &stream[hole..]), 2_000);
    t.on_segment(&seg(true, BASE, tcp_flags::ACK, &stream[..hole]), 6_000);
    assert_eq!(t.iter().next().unwrap().c2s.pending_since_us, Some(2_000));

    // The segment with the incomplete frame is not in a ring from 5_000 on.
    let d = c2s_of(&t, Some(5_000));
    assert!(!d.usable);
    assert!(d.reason.unwrap().contains("ring"));
    let d = c2s_of(&t, Some(2_000));
    assert!(d.usable);
    assert_eq!(d.next_frame_seq, BASE + (stream.len() - 12) as u32);
}

/// No table is larger than the limit, whatever the peer negotiates.
#[test]
fn tables_stay_within_the_limit() {
    let mut t = Tracker::new(vec![7777], 100, 300, 5000);
    t.on_segment(&seg(true, BASE - 1, tcp_flags::SYN, &[]), 1_000);
    let mut s = PREFACE.to_vec();
    let mut b = vec![0x3f, 0xe1, 0xff, 0x03]; // table size 65_536
    b.extend_from_slice(&lit_indexed(b"a", b"b"));
    s.extend_from_slice(&build_frame(FrameType::HEADERS, flags::END_HEADERS, 1, &b));
    t.on_segment(&seg(true, BASE, tcp_flags::ACK, &s), 2_000);
    let c = t.iter().next().unwrap();
    assert!(c.c2s.dir.dec.over_limit());
    assert_eq!(c.c2s.dir.dec.table_size(), 0);
    assert!(!c2s_of(&t, Some(0)).usable);
}
