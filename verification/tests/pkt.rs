//! Ethernet, IP and TCP packets, read and written.

use h2core::addr::{IpAddr, SocketAddr};
use h2core::pkt::{
    build_tcp_packet, fold, parse_ethernet, sum16, tcp_flags, Endpoint, ETHERTYPE_QINQ,
    ETHERTYPE_VLAN, IPPROTO_TCP,
};

fn ep_v4() -> Endpoint {
    Endpoint {
        eth_dst: [0x02, 0, 0, 0, 0, 2],
        eth_src: [0x02, 0, 0, 0, 0, 1],
        src_ip: IpAddr::v4(10, 0, 0, 1),
        dst_ip: IpAddr::v4(10, 0, 0, 2),
        src_port: 41234,
        dst_port: 7777,
    }
}

fn ep_v6() -> Endpoint {
    Endpoint {
        eth_dst: [0x02, 0, 0, 0, 0, 2],
        eth_src: [0x02, 0, 0, 0, 0, 1],
        src_ip: IpAddr::v6([0x2001, 0xdb8, 0, 0, 0, 0, 0, 1]),
        dst_ip: IpAddr::v6([0x2001, 0xdb8, 0, 0, 0, 0, 0, 2]),
        src_port: 41234,
        dst_port: 7777,
    }
}

#[test]
fn v4_round_trip() {
    let ep = ep_v4();
    let frame = build_tcp_packet(&ep, 1000, 2000, tcp_flags::PSH | tcp_flags::ACK, 65535, 7, b"hello");
    let seg = parse_ethernet(&frame).expect("parses");
    assert_eq!(seg.src_ip, ep.src_ip);
    assert_eq!(seg.dst_port, 7777);
    assert_eq!(seg.seq, 1000);
    assert_eq!(seg.ack, 2000);
    assert!(seg.has(tcp_flags::ACK) && seg.has(tcp_flags::PSH));
    assert_eq!(seg.payload, b"hello");
}

#[test]
fn v6_round_trip() {
    let ep = ep_v6();
    let frame = build_tcp_packet(&ep, 5, 6, tcp_flags::ACK, 1024, 0, b"sbi");
    let seg = parse_ethernet(&frame).expect("parses");
    assert_eq!(seg.src_ip, ep.src_ip);
    assert_eq!(seg.payload, b"sbi");
}

/// Checksums must be valid: summing a correct header yields zero.
#[test]
fn checksums_verify() {
    let frame = build_tcp_packet(&ep_v4(), 1, 1, tcp_flags::ACK, 100, 1, b"abcdefg");
    let ip = &frame[14..34];
    assert_eq!(fold(sum16(ip, 0)), 0, "ipv4 header checksum");

    let tcp = &frame[34..];
    let mut pseudo = 0u32;
    pseudo = sum16(&[10, 0, 0, 1], pseudo);
    pseudo = sum16(&[10, 0, 0, 2], pseudo);
    pseudo += IPPROTO_TCP as u32 + tcp.len() as u32;
    assert_eq!(fold(sum16(tcp, pseudo)), 0, "tcp checksum");
}

#[test]
fn ethernet_padding_does_not_leak_into_payload() {
    let mut frame = build_tcp_packet(&ep_v4(), 1, 1, tcp_flags::ACK, 100, 1, b"hi");
    frame.extend_from_slice(&[0u8; 20]); // NIC padding to minimum frame size
    let seg = parse_ethernet(&frame).unwrap();
    assert_eq!(seg.payload, b"hi", "must trust IP total_length, not frame length");
}

#[test]
fn vlan_tags_are_skipped() {
    let plain = build_tcp_packet(&ep_v4(), 1, 1, tcp_flags::ACK, 100, 1, b"x");
    let mut tagged = Vec::new();
    tagged.extend_from_slice(&plain[..12]);
    tagged.extend_from_slice(&ETHERTYPE_VLAN.to_be_bytes());
    tagged.extend_from_slice(&[0x00, 0x64]); // vlan 100
    tagged.extend_from_slice(&plain[12..]);
    let seg = parse_ethernet(&tagged).unwrap();
    assert_eq!(seg.payload, b"x");
    assert_eq!(seg.dst_port, 7777);
}

#[test]
fn non_tcp_and_fragments_are_rejected() {
    let mut frame = build_tcp_packet(&ep_v4(), 1, 1, tcp_flags::ACK, 100, 1, b"x");
    frame[14 + 9] = 17; // UDP
    assert!(parse_ethernet(&frame).is_none());

    let mut frag = build_tcp_packet(&ep_v4(), 1, 1, tcp_flags::ACK, 100, 1, b"x");
    frag[14 + 6] = 0x20; // MF set
    assert!(parse_ethernet(&frag).is_none());
}

#[test]
fn a_built_ipv4_packet_is_these_bytes() {
    let frame = build_tcp_packet(&ep_v4(), 0x01020304, 0x05060708, tcp_flags::ACK, 100, 9, b"hi");
    assert_eq!(&frame[..14], &[2, 0, 0, 0, 0, 2, 2, 0, 0, 0, 0, 1, 0x08, 0x00]);
    assert_eq!(
        &frame[14..34],
        &[0x45, 0, 0, 42, 0, 9, 0x40, 0, 64, 6, 0x26, 0xc3, 10, 0, 0, 1, 10, 0, 0, 2]
    );
    assert_eq!(&frame[34..38], &[0xa1, 0x12, 0x1e, 0x61]);
    assert_eq!(&frame[38..46], &[1, 2, 3, 4, 5, 6, 7, 8]);
    assert_eq!(&frame[46..50], &[0x50, 0x10, 0, 100]);
    assert_eq!(&frame[54..], b"hi");
}

#[test]
fn checksums_of_known_sums() {
    assert_eq!(sum16(&[0x12, 0x34, 0x56], 0), 0x1234 + 0x5600);
    assert_eq!(fold(0), 0xffff);
    assert_eq!(fold(0x1_fffe), 0);
}

#[test]
fn ipv6_checksums_verify() {
    let frame = build_tcp_packet(&ep_v6(), 1, 1, tcp_flags::ACK, 100, 0, b"abc");
    let tcp = &frame[54..];
    let mut pseudo = sum16(&frame[22..54], 0);
    pseudo += IPPROTO_TCP as u32 + tcp.len() as u32;
    assert_eq!(fold(sum16(tcp, pseudo)), 0);
}

#[test]
fn reversing_swaps_both_ends() {
    let r = ep_v4().reversed();
    assert_eq!(r.eth_dst, ep_v4().eth_src);
    assert_eq!(r.src_ip, ep_v4().dst_ip);
    assert_eq!((r.src_port, r.dst_port), (7777, 41234));
}

#[test]
fn stacked_tags_are_skipped() {
    let plain = build_tcp_packet(&ep_v6(), 1, 1, tcp_flags::ACK, 100, 1, b"x");
    let mut tagged = plain[..12].to_vec();
    tagged.extend_from_slice(&ETHERTYPE_QINQ.to_be_bytes());
    tagged.extend_from_slice(&[0, 1]);
    tagged.extend_from_slice(&ETHERTYPE_VLAN.to_be_bytes());
    tagged.extend_from_slice(&[0, 2]);
    tagged.extend_from_slice(&plain[12..]);
    assert_eq!(parse_ethernet(&tagged).unwrap().payload, b"x");
}

#[test]
fn ipv6_extension_headers_are_skipped() {
    let plain = build_tcp_packet(&ep_v6(), 1, 1, tcp_flags::ACK, 100, 1, b"x");
    let mut f = plain[..54].to_vec();
    // A hop-by-hop header of eight bytes that leads on to TCP.
    f[20] = 0;
    let len = (plain.len() - 54 + 8) as u16;
    f[18..20].copy_from_slice(&len.to_be_bytes());
    f.extend_from_slice(&[IPPROTO_TCP, 0, 0, 0, 0, 0, 0, 0]);
    f.extend_from_slice(&plain[54..]);
    let seg = parse_ethernet(&f).unwrap();
    assert_eq!(seg.payload, b"x");
    assert_eq!(seg.src_port, 41234);
}

#[test]
fn truncated_frames_are_rejected() {
    let whole = build_tcp_packet(&ep_v4(), 1, 1, tcp_flags::ACK, 100, 1, b"");
    for n in 0..whole.len() {
        assert!(parse_ethernet(&whole[..n]).is_none(), "{n} bytes");
    }
    assert!(parse_ethernet(&whole).is_some());
}

#[test]
fn addresses_are_shown_as_usual() {
    let a = SocketAddr::new(IpAddr::v4(10, 0, 255, 1), 80);
    assert_eq!(a.text(), "10.0.255.1:80");
    let a = SocketAddr::new(IpAddr::v6([0x2001, 0xdb8, 0, 0, 0, 0, 0, 1]), 7777);
    assert_eq!(a.text(), "[2001:db8::1]:7777");
    let a = SocketAddr::new(IpAddr::v6([0; 8]), 1);
    assert_eq!(a.text(), "[::]:1");
    let a = SocketAddr::new(IpAddr::v6([1, 0, 0, 2, 0, 0, 0, 3]), 1);
    assert_eq!(a.text(), "[1:0:0:2::3]:1");
    let a = SocketAddr::new(IpAddr::v6([1, 0, 2, 3, 4, 5, 6, 7]), 1);
    assert_eq!(a.text(), "[1:0:2:3:4:5:6:7]:1");
    let a = SocketAddr::new(IpAddr::v6([0, 0, 0, 0, 0, 0xffff, 0x0a00, 0x0001]), 1);
    assert_eq!(a.text(), "[::ffff:10.0.0.1]:1");
}
