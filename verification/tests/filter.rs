//! The kernel filter and the counters of a packet socket.

use h2core::addr::IpAddr;
use h2core::filter::{
    build_filter, filter_for, Instr, SocketStats, BPF_JEQ_K, BPF_JSET_K, BPF_LDX_B_MSH,
    BPF_LD_B_ABS, BPF_LD_H_ABS, BPF_LD_H_IND, BPF_RET_K, MAX_FILTER_PORTS,
};
use h2core::pkt::{build_tcp_packet, parse_ethernet, tcp_flags, Endpoint};

/// A tiny classic-BPF interpreter, so the generated program can be checked
/// against real frames without needing a socket or privileges.
fn run(prog: &[Instr], pkt: &[u8]) -> u32 {
    let (mut a, mut x, mut pc) = (0u32, 0u32, 0usize);
    for _ in 0..10_000 {
        let i = &prog[pc];
        pc += 1;
        let ld = |off: usize, n: usize| -> Option<u32> {
            if off + n > pkt.len() {
                return None;
            }
            Some(match n {
                1 => pkt[off] as u32,
                2 => u16::from_be_bytes([pkt[off], pkt[off + 1]]) as u32,
                _ => unreachable!(),
            })
        };
        match i.code {
            BPF_LD_H_ABS => match ld(i.k as usize, 2) { Some(v) => a = v, None => return 0 },
            BPF_LD_B_ABS => match ld(i.k as usize, 1) { Some(v) => a = v, None => return 0 },
            BPF_LD_H_IND => match ld((x + i.k) as usize, 2) { Some(v) => a = v, None => return 0 },
            BPF_LDX_B_MSH => match ld(i.k as usize, 1) {
                Some(v) => x = 4 * (v & 0x0f),
                None => return 0,
            },
            BPF_JEQ_K => pc += if a == i.k { i.jt as usize } else { i.jf as usize },
            BPF_JSET_K => pc += if a & i.k != 0 { i.jt as usize } else { i.jf as usize },
            BPF_RET_K => return i.k,
            c => panic!("unhandled opcode {c:#x}"),
        }
    }
    panic!("filter did not terminate");
}

fn v4(src_port: u16, dst_port: u16, proto: u8, frag: u16, ihl: u8) -> Vec<u8> {
    let mut p = vec![0u8; 14];
    p[12..14].copy_from_slice(&0x0800u16.to_be_bytes());
    let mut ip = vec![0u8; (ihl as usize) * 4];
    ip[0] = 0x40 | ihl;
    ip[6..8].copy_from_slice(&frag.to_be_bytes());
    ip[9] = proto;
    p.extend_from_slice(&ip);
    p.extend_from_slice(&src_port.to_be_bytes());
    p.extend_from_slice(&dst_port.to_be_bytes());
    p.extend_from_slice(&[0u8; 16]);
    p
}

fn v6(src_port: u16, dst_port: u16, next: u8) -> Vec<u8> {
    let mut p = vec![0u8; 14];
    p[12..14].copy_from_slice(&0x86ddu16.to_be_bytes());
    let mut ip = vec![0u8; 40];
    ip[0] = 0x60;
    ip[6] = next;
    p.extend_from_slice(&ip);
    p.extend_from_slice(&src_port.to_be_bytes());
    p.extend_from_slice(&dst_port.to_be_bytes());
    p.extend_from_slice(&[0u8; 16]);
    p
}

const PORTS: [u16; 3] = [80, 8080, 29510];

#[test]
fn accepts_matching_tcp_in_both_directions() {
    let f = build_filter(&PORTS);
    assert_ne!(run(&f, &v4(41234, 80, 6, 0, 5)), 0, "v4 to a watched port");
    assert_ne!(run(&f, &v4(80, 41234, 6, 0, 5)), 0, "v4 from a watched port");
    assert_ne!(run(&f, &v4(1, 29510, 6, 0, 5)), 0, "v4 last port in the list");
    assert_ne!(run(&f, &v6(41234, 8080, 6)), 0, "v6 to a watched port");
    assert_ne!(run(&f, &v6(8080, 41234, 6)), 0, "v6 from a watched port");
}

#[test]
fn accepts_ipv4_with_options() {
    // ihl 8 means 12 bytes of options; ports must still be located.
    let f = build_filter(&PORTS);
    assert_ne!(run(&f, &v4(41234, 80, 6, 0, 8)), 0, "must follow IHL, not assume 20 bytes");
}

#[test]
fn rejects_what_userspace_would_also_reject() {
    let f = build_filter(&PORTS);
    assert_eq!(run(&f, &v4(41234, 443, 6, 0, 5)), 0, "unwatched port");
    assert_eq!(run(&f, &v4(41234, 80, 17, 0, 5)), 0, "udp");
    assert_eq!(run(&f, &v4(41234, 80, 6, 0x2000, 5)), 0, "more-fragments set");
    assert_eq!(run(&f, &v4(41234, 80, 6, 0x0001, 5)), 0, "non-zero fragment offset");
    assert_eq!(run(&f, &v6(41234, 80, 17)), 0, "v6 udp");

    let mut arp = vec![0u8; 60];
    arp[12..14].copy_from_slice(&0x0806u16.to_be_bytes());
    assert_eq!(run(&f, &arp), 0, "arp");
}

/// The don't-fragment bit is not a fragment. Dropping on it would discard
/// almost all normal traffic.
#[test]
fn does_not_confuse_dont_fragment_with_fragmented() {
    let f = build_filter(&PORTS);
    assert_ne!(run(&f, &v4(41234, 80, 6, 0x4000, 5)), 0, "DF set is still a whole packet");
}

/// VLAN handling in BPF is easy to get subtly wrong, so tagged frames are
/// passed up for the userspace parser rather than judged here.
#[test]
fn vlan_tagged_frames_are_passed_to_userspace() {
    let f = build_filter(&PORTS);
    let mut tagged = vec![0u8; 12];
    tagged.extend_from_slice(&0x8100u16.to_be_bytes());
    tagged.extend_from_slice(&[0x00, 0x64]);
    tagged.extend_from_slice(&v4(41234, 80, 6, 0, 5)[12..]);
    assert_ne!(run(&f, &tagged), 0, "must not drop VLAN traffic we can parse");
}

#[test]
fn accept_returns_the_whole_frame() {
    let f = build_filter(&PORTS);
    assert_eq!(run(&f, &v4(41234, 80, 6, 0, 5)), 0xffff_ffff, "must not truncate");
}

#[test]
fn jump_offsets_stay_within_one_byte() {
    let ports: Vec<u16> = (29500..29560).collect();
    let f = build_filter(&ports);
    for (i, x) in f.iter().enumerate() {
        assert!(x.jt as usize <= 255 && x.jf as usize <= 255, "instruction {i} overflows");
    }
    assert_ne!(run(&f, &v4(1, 29559, 6, 0, 5)), 0);
    assert_eq!(run(&f, &v4(1, 29499, 6, 0, 5)), 0);
}

/// Extension headers are left to the userspace parser, which can skip them.
#[test]
fn ipv6_extension_headers_are_passed_to_userspace() {
    let f = build_filter(&PORTS);
    for next in [0u8, 43, 60, 135] {
        assert_ne!(run(&f, &v6(1, 2, next)), 0, "next header {next}");
    }
    assert_eq!(run(&f, &v6(80, 80, 44)), 0, "fragments are not parsed");
}

/// What the parser would take on a watched port, the filter passes.
#[test]
fn the_filter_drops_nothing_the_parser_takes() {
    let f = build_filter(&PORTS);
    for (s, d) in [(80u16, 1u16), (1, 80), (8080, 29510), (1, 2)] {
        let ep = Endpoint {
            eth_dst: [0; 6],
            eth_src: [0; 6],
            src_ip: IpAddr::v4(1, 2, 3, 4),
            dst_ip: IpAddr::v4(5, 6, 7, 8),
            src_port: s,
            dst_port: d,
        };
        let p = build_tcp_packet(&ep, 1, 2, tcp_flags::ACK, 3, 4, b"x");
        let seg = parse_ethernet(&p).unwrap();
        let watched = PORTS.contains(&seg.src_port) || PORTS.contains(&seg.dst_port);
        assert_eq!(run(&f, &p) != 0, watched);
    }
}

#[test]
fn without_ports_everything_parsable_is_dropped() {
    let f = build_filter(&[]);
    assert_eq!(run(&f, &v4(80, 80, 6, 0, 5)), 0);
}

#[test]
fn a_filter_is_installed_only_where_it_fits() {
    assert!(filter_for(&PORTS, false).is_none());
    assert!(filter_for(&[], true).is_none());
    let many: Vec<u16> = (1..=MAX_FILTER_PORTS as u16 + 1).collect();
    assert!(filter_for(&many, true).is_none());
    assert_eq!(filter_for(&PORTS, true).unwrap(), build_filter(&PORTS));
}

#[test]
fn socket_counters_add_up() {
    let mut s = SocketStats::new();
    s.accumulate(5, 1);
    s.accumulate(7, 0);
    assert_eq!(s, SocketStats { packets: 12, drops: 1 });
}
