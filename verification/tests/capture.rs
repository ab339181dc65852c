//! The state keeper: what it does with frames, time and requests.

use h2core::addr::IpAddr;
use h2core::capture::{
    degraded, is_interesting, Config, Keeper, Session, StartError, StartReq, StopError, Target,
};
use h2core::frame::{build_frame, flags, FrameType, PREFACE};
use h2core::pkt::{build_tcp_packet, parse_ethernet, tcp_flags, Endpoint};

fn cfg(ports: Vec<u16>) -> Config {
    Config {
        iface: "eth0".into(),
        ports,
        out_dir: "./captures".into(),
        ring_bytes: 1 << 20,
        idle_secs: 300,
        max_conns: 10,
        promiscuous: false,
        snaplen: 65535,
        ring_secs: 5,
        max_table_bytes: 1 << 20,
        kernel_filter: true,
        read_buffer_bytes: 1 << 20,
    }
}

fn packet(dst_port: u16, seq: u32, fl: u8, payload: &[u8]) -> Vec<u8> {
    let ep = Endpoint {
        eth_dst: [2; 6],
        eth_src: [4; 6],
        src_ip: IpAddr::v4(10, 0, 0, 1),
        dst_ip: IpAddr::v4(10, 0, 0, 2),
        src_port: 41234,
        dst_port,
    };
    build_tcp_packet(&ep, seq, 0, fl, 1000, 1, payload)
}

fn client_stream() -> Vec<u8> {
    let mut s = PREFACE.to_vec();
    let b = [0x82, 0x40, 1, b'a', 1, b'b'];
    s.extend_from_slice(&build_frame(FrameType::HEADERS, flags::END_HEADERS, 1, &b));
    s
}

fn session(id: &str) -> Session {
    Session {
        id: id.into(),
        pcap_path: "p".into(),
        snapshot_path: "s".into(),
        packets: 0,
        bytes: 0,
        started_us: 1,
        conns_usable: 0,
        conns_degraded: 0,
    }
}

#[test]
fn interest_follows_the_ports() {
    let p = packet(7777, 1, tcp_flags::ACK, b"");
    let seg = parse_ethernet(&p).unwrap();
    assert!(is_interesting(&[], &seg));
    assert!(is_interesting(&[7777], &seg));
    assert!(is_interesting(&[80, 41234], &seg));
    assert!(!is_interesting(&[80], &seg));
}

#[test]
fn frames_go_to_the_ring_and_the_tracker() {
    let mut k = Keeper::new(&cfg(vec![7777]), 0);
    assert!(!k.on_frame(&packet(80, 1, tcp_flags::ACK, b""), 10));
    assert!(!k.on_frame(&[0; 60], 10));
    let p = packet(7777, 99, tcp_flags::SYN, b"");
    assert!(k.on_frame(&p, 10));
    assert_eq!(k.ring.q.len(), 1);
    assert_eq!(k.ring.q[0], (10, p));
    assert_eq!(k.tracker.len(), 1);
}

#[test]
fn time_is_looked_at_once_a_second() {
    let mut k = Keeper::new(&cfg(vec![]), 5);
    assert!(!k.on_time(1_000_005));
    assert!(k.on_time(1_000_006));
    assert_eq!(k.last_tick, 1_000_006);
    assert!(!k.on_time(0));
}

#[test]
fn one_read_error_in_a_thousand_is_worth_a_line() {
    let mut k = Keeper::new(&cfg(vec![]), 0);
    let lines: Vec<bool> = (0..1001).map(|_| k.on_read_error()).collect();
    assert!(lines[0] && lines[1000]);
    assert_eq!(lines.iter().filter(|x| **x).count(), 2);
}

#[test]
fn a_start_is_planned_under_its_name() {
    let k = Keeper::new(&cfg(vec![]), 0);
    let p = k.plan_start(&StartReq::default(), 42).ok().unwrap();
    assert_eq!(p.id, "cap-42");
    assert_eq!(p.started_us, 42);
    assert!(matches!(p.pcap, Target::InOutDir(n) if n == "cap-42.pcap"));
    assert!(matches!(p.snapshot, Target::InOutDir(n) if n == "cap-42.snapshot.json"));

    let req = StartReq { name: Some("x".into()), pcap: Some("/tmp/y".into()), snapshot: None };
    let p = k.plan_start(&req, 42).ok().unwrap();
    assert_eq!(p.id, "x");
    assert!(matches!(p.pcap, Target::Given(n) if n == "/tmp/y"));
    assert!(matches!(p.snapshot, Target::InOutDir(n) if n == "x.snapshot.json"));
}

#[test]
fn names_that_lead_elsewhere_are_refused() {
    let k = Keeper::new(&cfg(vec![]), 0);
    for name in ["a/b", "..\\x", "/"] {
        let req = StartReq { name: Some(name.into()), pcap: None, snapshot: None };
        match k.plan_start(&req, 1) {
            Err(e) => {
                assert!(matches!(e, StartError::PathSeparator));
                assert_eq!(e.message(), "capture name must not contain path separators");
            }
            Ok(_) => panic!("{name}"),
        }
    }
}

#[test]
fn one_capture_runs_at_a_time() {
    let mut k = Keeper::new(&cfg(vec![]), 0);
    k.begin(session("one"));
    match k.plan_start(&StartReq::default(), 1) {
        Err(e) => assert_eq!(e.message(), "capture one is already running"),
        Ok(_) => panic!("two at once"),
    }
}

#[test]
fn stopping_gives_the_session_back() {
    let mut k = Keeper::new(&cfg(vec![]), 0);
    match k.stop(&None) {
        Err(e) => {
            assert!(matches!(e, StopError::NoneRunning));
            assert_eq!(e.message(), "no capture is running");
        }
        Ok(_) => panic!("nothing ran"),
    }
    k.begin(session("one"));
    k.wrote(100);
    k.wrote(50);
    match k.stop(&Some("two".into())) {
        Err(e) => assert_eq!(e.message(), "no capture two (running: one)"),
        Ok(_) => panic!("wrong one"),
    }
    let s = k.stop(&Some("one".into())).ok().unwrap();
    assert_eq!((s.packets, s.bytes), (2, 150));
    assert!(k.session.is_none());
    k.begin(session("three"));
    assert_eq!(k.stop(&None).ok().unwrap().id, "three");
}

#[test]
fn a_snapshot_is_of_this_point() {
    let mut k = Keeper::new(&cfg(vec![7777]), 0);
    k.on_frame(&packet(7777, 99, tcp_flags::SYN, b""), 10);
    let s = client_stream();
    k.on_frame(&packet(7777, 100, tcp_flags::ACK, &s), 20);
    let snap = k.snapshot("id", 30, "/tmp/x.pcap");
    assert_eq!((snap.version, snap.started_unix_us), (1, 30));
    assert_eq!((snap.capture_id.as_str(), snap.iface.as_str()), ("id", "eth0"));
    assert_eq!(snap.pcap_path, "/tmp/x.pcap");
    assert_eq!(snap.conns.len(), 1);
    assert_eq!((snap.conns_usable, snap.conns_degraded), (1, 0));
    let d = &snap.conns[0].dirs[0];
    assert_eq!(d.next_frame_seq, 100 + s.len() as u32);
    assert_eq!(d.entries.len(), 1);

    // The other direction said nothing yet and is named where it is degraded.
    let bad = degraded(&snap.conns);
    let unusable: usize =
        snap.conns.iter().map(|c| c.dirs.iter().filter(|d| !d.usable).count()).sum();
    assert_eq!(bad.len(), unusable);
    assert!(bad.iter().all(|b| b.conn_id == snap.conns[0].conn_id && b.reason.is_some()));
}

#[test]
fn health_counts_what_there_is() {
    let mut k = Keeper::new(&cfg(vec![7777]), 0);
    let h = k.health(0);
    assert_eq!((h.conns, h.dirs, h.ring_packets), (0, 0, 0));
    assert_eq!((h.ring_span_s, h.ring_oldest_unix_us), (None, None));

    assert_eq!(h.dirs_exact, 0);

    k.on_frame(&packet(7777, 99, tcp_flags::SYN, b""), 10);
    // The client's preface is still to come, so that direction cannot be
    // snapshotted yet.
    let h = k.health(15);
    assert_eq!((h.dirs, h.dirs_exact), (2, 1));
    k.on_frame(&packet(7777, 100, tcp_flags::ACK, &client_stream()), 20);
    k.on_read_error();
    let h = k.health(3_000_010);
    assert_eq!((h.conns, h.dirs, h.dirs_poisoned), (1, 2, 0));
    assert_eq!(h.dirs_exact, 2);
    // All of them are exact, and a snapshot is clean.
    let snap = k.snapshot("id", 30, "/tmp/x.pcap");
    assert_eq!((snap.conns_usable, snap.conns_degraded), (1, 0));
    assert_eq!(h.segments, 2);
    assert_eq!((h.reassembly_gaps, h.capture_read_errors), (0, 1));
    assert_eq!(h.ring_packets, 2);
    assert_eq!((h.ring_span_s, h.ring_oldest_unix_us), (Some(3), Some(10)));
    assert_eq!((h.conns_evicted, h.conns_rejected_table_full), (0, 0));
}

#[test]
fn connections_are_described() {
    let mut k = Keeper::new(&cfg(vec![7777]), 0);
    k.on_frame(&packet(7777, 99, tcp_flags::SYN, b""), 1_000_000);
    k.on_frame(&packet(7777, 100, tcp_flags::ACK, &client_stream()), 2_000_000);
    let c = k.connections(5_500_000);
    assert_eq!(c.len(), 1);
    assert_eq!((c[0].age_s, c[0].idle_s, c[0].closing), (4, 3, false));
    assert_eq!(c[0].client, "10.0.0.1:41234");
    assert_eq!(c[0].server, "10.0.0.2:7777");
    assert_eq!(c[0].c2s.dir, "c2s");
    assert!(c[0].c2s.exact && c[0].c2s.snapshottable && c[0].c2s.capacity_observed);
    assert!(!c[0].c2s.poisoned && !c[0].c2s.desynced && !c[0].c2s.table_untracked);
    assert_eq!((c[0].c2s.table_entries, c[0].c2s.table_size), (1, 34));
    assert_eq!((c[0].c2s.frames, c[0].c2s.header_blocks), (1, 1));
    assert_eq!(c[0].c2s.bytes, client_stream().len() as u64);
    assert_eq!(c[0].s2c.dir, "s2c");
}
