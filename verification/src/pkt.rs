//! Ethernet / IPv4 / IPv6 / TCP parsing and synthesis.
//!
//! Shared so that the live keeper and the normalizer agree byte for byte on what
//! a segment is. Kept dependency-free: the formats are small and stable, and
//! the normalizer needs full control over how it emits packets anyway.
use vstd::prelude::*;

use crate::addr::{ip_bytes, IpAddr};
use crate::bytes::{
    add32, be16, be16_at, be16_bytes, be32, be32_at, be32_bytes, lemma_add32_twice, push_all,
    push_be16, push_be32, seq_plus, skip,
};

pub mod laws;
pub mod layout;
pub mod tcp_flags;

verus! {

pub const ETHERTYPE_IPV4: u16 = 0x0800;

pub const ETHERTYPE_IPV6: u16 = 0x86dd;

pub const ETHERTYPE_VLAN: u16 = 0x8100;

pub const ETHERTYPE_QINQ: u16 = 0x88a8;

pub const IPPROTO_TCP: u8 = 6;

/// A TCP segment in a captured frame.
#[derive(Debug, Clone, Copy)]
pub struct TcpSegment<'a> {
    pub eth_dst: [u8; 6],
    pub eth_src: [u8; 6],
    pub src_ip: IpAddr,
    pub dst_ip: IpAddr,
    pub src_port: u16,
    pub dst_port: u16,
    pub seq: u32,
    pub ack: u32,
    pub flags: u8,
    pub payload: &'a [u8],
}

/// A TCP segment as a mathematical value.
#[verifier::ext_equal]
pub struct SegmentView {
    pub eth_dst: Seq<u8>,
    pub eth_src: Seq<u8>,
    pub src_ip: IpAddr,
    pub dst_ip: IpAddr,
    pub src_port: u16,
    pub dst_port: u16,
    pub seq: u32,
    pub ack: u32,
    pub flags: u8,
    pub payload: Seq<u8>,
}

impl View for TcpSegment<'_> {
    type V = SegmentView;

    open spec fn view(&self) -> SegmentView {
        SegmentView {
            eth_dst: self.eth_dst@,
            eth_src: self.eth_src@,
            src_ip: self.src_ip,
            dst_ip: self.dst_ip,
            src_port: self.src_port,
            dst_port: self.dst_port,
            seq: self.seq,
            ack: self.ack,
            flags: self.flags,
            payload: self.payload@,
        }
    }
}

impl TcpSegment<'_> {
    /// Whether any of the flag bits `f` is set.
    pub fn has(&self, f: u8) -> (r: bool)
        ensures
            r == (self.flags & f != 0),
    {
        self.flags & f != 0
    }
}

/// The ethertype behind any number of VLAN tags, and the offset of what follows
/// it. `None` where the frame ends within a tag.
pub open spec fn behind_tags(frame: Seq<u8>, ethertype: int, off: int) -> Option<(int, int)>
    decreases frame.len() - off,
{
    if ethertype == ETHERTYPE_VLAN || ethertype == ETHERTYPE_QINQ {
        if frame.len() < off + 4 {
            None
        } else {
            behind_tags(frame, be16_at(frame, off + 2), off + 4)
        }
    } else {
        Some((ethertype, off))
    }
}

/// What an IP header leads to: source, destination, the bytes after the
/// header, and the length of the TCP segment as the header gives it.
#[verifier::ext_equal]
pub struct IpView {
    pub src: IpAddr,
    pub dst: IpAddr,
    pub l4: Seq<u8>,
    pub l4_len: int,
}

/// A whole IPv4 packet that carries TCP.
pub open spec fn ipv4_in(ip: Seq<u8>) -> Option<IpView> {
    let ihl = (ip[0] % 16) * 4;
    let total = be16_at(ip, 2);
    if ip.len() < 20 || ip[0] / 16 != 4 || ihl < 20 || ip.len() < ihl {
        None
    } else if be16_at(ip, 6) % 0x4000 != 0 {
        // A non-zero fragment offset or MF: a fragment.
        None
    } else if ip[9] != IPPROTO_TCP || total < ihl {
        None
    } else {
        Some(
            IpView {
                src: IpAddr::V4(be32_at(ip, 12) as u32),
                dst: IpAddr::V4(be32_at(ip, 16) as u32),
                l4: ip.skip(ihl),
                l4_len: total - ihl,
            },
        )
    }
}

/// Where the TCP header starts and how much of the payload length remains, once
/// the extension headers from `cur` on are walked. Hop-by-hop, routing,
/// destination options and mobility headers are; anything else, fragments among
/// them, is not.
pub open spec fn behind_extensions(ip: Seq<u8>, next: u8, cur: int, remaining: nat) -> Option<
    (int, nat),
>
    decreases remaining,
{
    if next == IPPROTO_TCP {
        Some((cur, remaining))
    } else if next == 0 || next == 43 || next == 60 || next == 135 {
        if cur + 2 > ip.len() {
            None
        } else {
            let len = (ip[cur + 1] + 1) * 8;
            if len > remaining {
                None
            } else {
                behind_extensions(ip, ip[cur], cur + len, (remaining - len) as nat)
            }
        }
    } else {
        None
    }
}

/// The IPv6 address at offset `i`.
pub open spec fn ipv6_at(ip: Seq<u8>, i: int) -> IpAddr {
    IpAddr::V6(
        be32_at(ip, i) as u32,
        be32_at(ip, i + 4) as u32,
        be32_at(ip, i + 8) as u32,
        be32_at(ip, i + 12) as u32,
    )
}

/// A whole IPv6 packet that carries TCP.
pub open spec fn ipv6_in(ip: Seq<u8>) -> Option<IpView> {
    if ip.len() < 40 || ip[0] / 16 != 6 {
        None
    } else {
        match behind_extensions(ip, ip[6], 40, be16_at(ip, 4) as nat) {
            None => None,
            Some((cur, remaining)) => if cur > ip.len() {
                None
            } else {
                Some(
                    IpView {
                        src: ipv6_at(ip, 8),
                        dst: ipv6_at(ip, 24),
                        l4: ip.skip(cur),
                        l4_len: remaining as int,
                    },
                )
            },
        }
    }
}

/// The TCP segment behind an IP header. What lies beyond the length that the IP
/// header gives is padding.
pub open spec fn tcp_in(frame: Seq<u8>, ip: IpView) -> Option<SegmentView> {
    let l4 = ip.l4;
    let data_off = (l4[12] / 16) * 4;
    let end = if ip.l4_len < l4.len() {
        ip.l4_len
    } else {
        l4.len() as int
    };
    if end < 20 || data_off < 20 || data_off > end {
        None
    } else {
        Some(
            SegmentView {
                eth_dst: frame.subrange(0, 6),
                eth_src: frame.subrange(6, 12),
                src_ip: ip.src,
                dst_ip: ip.dst,
                src_port: be16_at(l4, 0) as u16,
                dst_port: be16_at(l4, 2) as u16,
                seq: be32_at(l4, 4) as u32,
                ack: be32_at(l4, 8) as u32,
                flags: l4[13],
                payload: l4.subrange(data_off, end),
            },
        )
    }
}

/// The TCP segment in a frame whose network header, of the given ethertype,
/// starts at `off`.
pub open spec fn segment_behind(frame: Seq<u8>, ethertype: int, off: int) -> Option<SegmentView> {
    let ip = if ethertype == ETHERTYPE_IPV4 {
        ipv4_in(frame.skip(off))
    } else if ethertype == ETHERTYPE_IPV6 {
        ipv6_in(frame.skip(off))
    } else {
        None
    };
    match ip {
        None => None,
        Some(ip) => tcp_in(frame, ip),
    }
}

/// The TCP segment in an Ethernet frame.
pub open spec fn segment_in(frame: Seq<u8>) -> Option<SegmentView> {
    if frame.len() < 14 {
        None
    } else {
        match behind_tags(frame, be16_at(frame, 12), 14) {
            None => None,
            Some((ethertype, off)) => segment_behind(frame, ethertype, off),
        }
    }
}

/// An IP header taken apart.
struct IpParts<'a> {
    src: IpAddr,
    dst: IpAddr,
    l4: &'a [u8],
    l4_len: usize,
}

spec fn parts_view(p: Option<IpParts>) -> Option<IpView> {
    match p {
        Some(p) => Some(
            IpView { src: p.src, dst: p.dst, l4: p.l4@, l4_len: p.l4_len as int },
        ),
        None => None,
    }
}

fn six(b: &[u8]) -> (r: [u8; 6])
    requires
        b@.len() >= 6,
    ensures
        r@ == b@.subrange(0, 6),
{
    let r: [u8; 6] = [b[0], b[1], b[2], b[3], b[4], b[5]];
    assert(r@ =~= b@.subrange(0, 6));
    r
}

/// Parse an Ethernet frame down to TCP. Returns `None` for anything that is
/// not TCP over IPv4/IPv6, including IPv6 fragments (which we cannot
/// reassemble and must not silently mis-parse).
pub fn parse_ethernet(frame: &[u8]) -> (r: Option<TcpSegment<'_>>)
    ensures
        match r {
            Some(s) => segment_in(frame@) == Some(s@),
            None => segment_in(frame@) is None,
        },
{
    if frame.len() < 14 {
        return None;
    }
    let eth_dst: [u8; 6] = six(frame);
    let eth_src: [u8; 6] = six(skip(frame, 6));
    assert(eth_src@ =~= frame@.subrange(6, 12));
    let mut ethertype: u16 = be16(skip(frame, 12));
    let mut off: usize = 14;
    // Skip any number of VLAN tags.
    while ethertype == ETHERTYPE_VLAN || ethertype == ETHERTYPE_QINQ
        invariant
            14 <= off <= frame@.len(),
            behind_tags(frame@, be16_at(frame@, 12), 14) == behind_tags(
                frame@,
                ethertype as int,
                off as int,
            ),
            frame@.len() >= 14,
        decreases frame@.len() - off,
    {
        if frame.len() - off < 4 {
            return None;
        }
        ethertype = be16(skip(frame, off + 2));
        off += 4;
    }
    let ip: Option<IpParts<'_>> = if ethertype == ETHERTYPE_IPV4 {
        parse_ipv4(skip(frame, off))
    } else if ethertype == ETHERTYPE_IPV6 {
        parse_ipv6(skip(frame, off))
    } else {
        None
    };
    let ip: IpParts<'_> = match ip {
        Some(ip) => ip,
        None => return None,
    };
    let l4 = ip.l4;
    if l4.len() < 20 || ip.l4_len < 20 {
        return None;
    }
    let data_off: usize = ((l4[12] / 16) as usize) * 4;
    if data_off < 20 || data_off > ip.l4_len || data_off > l4.len() {
        return None;
    }
    let end: usize = if ip.l4_len < l4.len() {
        ip.l4_len
    } else {
        l4.len()
    };
    let payload = vstd::slice::slice_subrange(l4, data_off, end);
    Some(
        TcpSegment {
            eth_dst,
            eth_src,
            src_ip: ip.src,
            dst_ip: ip.dst,
            src_port: be16(l4),
            dst_port: be16(skip(l4, 2)),
            seq: be32(skip(l4, 4)),
            ack: be32(skip(l4, 8)),
            flags: l4[13],
            payload,
        },
    )
}

fn parse_ipv4(ip: &[u8]) -> (r: Option<IpParts<'_>>)
    ensures
        parts_view(r) == ipv4_in(ip@),
{
    if ip.len() < 20 || ip[0] / 16 != 4 {
        return None;
    }
    let ihl: usize = ((ip[0] % 16) as usize) * 4;
    if ihl < 20 || ip.len() < ihl {
        return None;
    }
    // A non-zero fragment offset or MF means we are looking at a fragment.
    let frag: u16 = be16(skip(ip, 6)) % 0x4000;
    if frag != 0 {
        return None;
    }
    if ip[9] != IPPROTO_TCP {
        return None;
    }
    let total_len: usize = be16(skip(ip, 2)) as usize;
    // Trust the IP header over the frame length: Ethernet pads short frames.
    if total_len < ihl {
        return None;
    }
    Some(
        IpParts {
            src: IpAddr::V4(be32(skip(ip, 12))),
            dst: IpAddr::V4(be32(skip(ip, 16))),
            l4: skip(ip, ihl),
            l4_len: total_len - ihl,
        },
    )
}

fn read_ipv6(ip: &[u8], i: usize) -> (r: IpAddr)
    requires
        i + 16 <= ip@.len(),
    ensures
        r == ipv6_at(ip@, i as int),
{
    let b = skip(ip, i);
    IpAddr::V6(be32(b), be32(skip(b, 4)), be32(skip(b, 8)), be32(skip(b, 12)))
}

fn parse_ipv6(ip: &[u8]) -> (r: Option<IpParts<'_>>)
    ensures
        parts_view(r) == ipv6_in(ip@),
{
    if ip.len() < 40 || ip[0] / 16 != 6 {
        return None;
    }
    let payload_len: usize = be16(skip(ip, 4)) as usize;
    let mut next: u8 = ip[6];
    let mut cur: usize = 40;
    let mut remaining: usize = payload_len;
    // Walk extension headers. Fragments are refused outright.
    while next != IPPROTO_TCP
        invariant
            cur + remaining == 40 + payload_len,
            payload_len <= 0xffff,
            behind_extensions(ip@, ip@[6], 40, payload_len as nat) == behind_extensions(
                ip@,
                next,
                cur as int,
                remaining as nat,
            ),
            ip@.len() >= 40,
            ip@[0] / 16 == 6,
            payload_len == be16_at(ip@, 4),
        decreases remaining,
    {
        // Hop-by-hop, routing, destination options, mobility.
        if next == 0 || next == 43 || next == 60 || next == 135 {
            if ip.len() < cur + 2 {
                return None;
            }
            let len: usize = ((ip[cur + 1] as usize) + 1) * 8;
            next = ip[cur];
            if len > remaining {
                return None;
            }
            cur += len;
            remaining -= len;
        } else {
            return None;  // fragments and ESP/AH among them
        }
    }
    if cur > ip.len() {
        return None;
    }
    Some(
        IpParts {
            src: read_ipv6(ip, 8),
            dst: read_ipv6(ip, 24),
            l4: skip(ip, cur),
            l4_len: remaining,
        },
    )
}

// ---------------------------------------------------------------------------
// Synthesis
// ---------------------------------------------------------------------------

/// Everything about a direction that stays constant across its packets.
#[derive(Debug, Clone, Copy)]
pub struct Endpoint {
    pub eth_dst: [u8; 6],
    pub eth_src: [u8; 6],
    pub src_ip: IpAddr,
    pub dst_ip: IpAddr,
    pub src_port: u16,
    pub dst_port: u16,
}

/// The same as a mathematical value.
#[verifier::ext_equal]
pub struct EndpointView {
    pub eth_dst: Seq<u8>,
    pub eth_src: Seq<u8>,
    pub src_ip: IpAddr,
    pub dst_ip: IpAddr,
    pub src_port: u16,
    pub dst_port: u16,
}

impl View for Endpoint {
    type V = EndpointView;

    open spec fn view(&self) -> EndpointView {
        EndpointView {
            eth_dst: self.eth_dst@,
            eth_src: self.eth_src@,
            src_ip: self.src_ip,
            dst_ip: self.dst_ip,
            src_port: self.src_port,
            dst_port: self.dst_port,
        }
    }
}

/// The same, seen from the other side.
pub open spec fn reversed_endpoint(e: EndpointView) -> EndpointView {
    EndpointView {
        eth_dst: e.eth_src,
        eth_src: e.eth_dst,
        src_ip: e.dst_ip,
        dst_ip: e.src_ip,
        src_port: e.dst_port,
        dst_port: e.src_port,
    }
}

impl Endpoint {
    /// The endpoint of the opposite direction.
    pub fn reversed(&self) -> (r: Endpoint)
        ensures
            r@ == reversed_endpoint(self@),
    {
        Endpoint {
            eth_dst: self.eth_src,
            eth_src: self.eth_dst,
            src_ip: self.dst_ip,
            dst_ip: self.src_ip,
            src_port: self.dst_port,
            dst_port: self.src_port,
        }
    }
}

/// The 16-bit words of `s` added up. An odd byte at the end counts as the high
/// half of a word.
pub open spec fn word_sum(s: Seq<u8>) -> nat
    decreases s.len(),
{
    if s.len() == 0 {
        0
    } else if s.len() == 1 {
        (s[0] * 256) as nat
    } else {
        (be16_at(s, 0) + word_sum(s.skip(2))) as nat
    }
}

/// A sum with its carries added back in until 16 bits hold it.
pub open spec fn folded(acc: nat) -> nat
    decreases acc,
{
    if acc < 65536 {
        acc
    } else {
        folded(acc % 65536 + acc / 65536)
    }
}

/// The Internet checksum of a 32-bit sum: the complement of the folded sum.
pub open spec fn checksum(acc: u32) -> u16 {
    (65535 - folded(acc as nat)) as u16
}

/// Adds the 16-bit words of `data` to `acc`, modulo two to the 32.
pub fn sum16(data: &[u8], acc: u32) -> (r: u32)
    ensures
        r == add32(acc, word_sum(data@) as int),
{
    let mut total: u32 = acc;
    let mut rest = data;
    while rest.len() > 1
        invariant
            add32(acc, word_sum(data@) as int) == add32(total, word_sum(rest@) as int),
        decreases rest@.len(),
    {
        let w: u32 = be16(rest) as u32;
        proof {
            lemma_add32_twice(total, w as int, word_sum(rest@.skip(2)) as int);
        }
        total = seq_plus(total, w as u64);
        rest = skip(rest, 2);
    }
    if rest.len() > 0 {
        total = seq_plus(total, (rest[0] as u64) * 256);
    }
    total
}

proof fn lemma_folded_bound(acc: nat)
    ensures
        folded(acc) < 65536,
    decreases acc,
{
    if acc >= 65536 {
        lemma_folded_bound(acc % 65536 + acc / 65536);
    }
}

/// The Internet checksum of a sum.
pub fn fold(acc: u32) -> (r: u16)
    ensures
        r == checksum(acc),
{
    let mut a: u32 = acc;
    while a >= 65536
        invariant
            folded(a as nat) == folded(acc as nat),
        decreases a,
    {
        a = a % 65536 + a / 65536;
    }
    (65535 - a) as u16
}

/// The bytes of a TCP segment with the given checksum field: a header of five
/// words without options, then the payload.
pub open spec fn tcp_bytes(
    ep: EndpointView,
    seq: u32,
    ack: u32,
    flags: u8,
    window: u16,
    ck: u16,
    payload: Seq<u8>,
) -> Seq<u8> {
    be16_bytes(ep.src_port) + be16_bytes(ep.dst_port) + be32_bytes(seq) + be32_bytes(ack) + seq![
        0x50u8,
        flags,
    ] + be16_bytes(window) + be16_bytes(ck) + seq![0u8, 0u8] + payload
}

/// The sum over the pseudo header that the TCP checksum covers as well, for a
/// segment of `len` bytes.
pub open spec fn pseudo_sum(src: IpAddr, dst: IpAddr, len: int) -> u32 {
    let ips = add32(
        add32(0, word_sum(ip_bytes(src)) as int),
        word_sum(ip_bytes(dst)) as int,
    );
    let len = len % 0x1_0000_0000;
    match (src, dst) {
        (IpAddr::V4(_), IpAddr::V4(_)) => add32(ips, 6 + len),
        (IpAddr::V6(_, _, _, _), IpAddr::V6(_, _, _, _)) => add32(
            ips,
            len / 65536 + len % 65536 + 6,
        ),
        _ => 0,
    }
}

/// The TCP checksum of a segment whose bytes, with the checksum field zero, are
/// `tcp`.
pub open spec fn tcp_checksum(src: IpAddr, dst: IpAddr, tcp: Seq<u8>) -> u16 {
    checksum(add32(pseudo_sum(src, dst, tcp.len() as int), word_sum(tcp) as int))
}

/// The bytes of an IPv4 header with the given checksum field, for `len` bytes of
/// TCP: don't-fragment set, time to live 64.
pub open spec fn ipv4_header(src: u32, dst: u32, ip_id: u16, len: int, ck: u16) -> Seq<u8> {
    seq![0x45u8, 0u8] + be16_bytes(((20 + len) % 65536) as u16) + be16_bytes(ip_id) + seq![
        0x40u8,
        0u8,
        64u8,
        6u8,
    ] + be16_bytes(ck) + be32_bytes(src) + be32_bytes(dst)
}

/// The IPv4 header with its checksum.
pub open spec fn ipv4_header_summed(src: u32, dst: u32, ip_id: u16, len: int) -> Seq<u8> {
    let bare = ipv4_header(src, dst, ip_id, len, 0);
    ipv4_header(src, dst, ip_id, len, checksum(add32(0, word_sum(bare) as int)))
}

/// The bytes of an IPv6 header for `len` bytes of TCP.
pub open spec fn ipv6_header(src: IpAddr, dst: IpAddr, len: int) -> Seq<u8> {
    seq![0x60u8, 0u8, 0u8, 0u8] + be16_bytes((len % 65536) as u16) + seq![6u8, 64u8] + ip_bytes(
        src,
    ) + ip_bytes(dst)
}

/// A whole Ethernet packet. There is none between addresses of different
/// families.
pub open spec fn packet_bytes(
    ep: EndpointView,
    seq: u32,
    ack: u32,
    flags: u8,
    window: u16,
    ip_id: u16,
    payload: Seq<u8>,
) -> Seq<u8> {
    let bare = tcp_bytes(ep, seq, ack, flags, window, 0, payload);
    let ck = tcp_checksum(ep.src_ip, ep.dst_ip, bare);
    let tcp = tcp_bytes(ep, seq, ack, flags, window, ck, payload);
    let macs = ep.eth_dst + ep.eth_src;
    match (ep.src_ip, ep.dst_ip) {
        (IpAddr::V4(s), IpAddr::V4(d)) => macs + be16_bytes(ETHERTYPE_IPV4) + ipv4_header_summed(
            s,
            d,
            ip_id,
            tcp.len() as int,
        ) + tcp,
        (IpAddr::V6(_, _, _, _), IpAddr::V6(_, _, _, _)) => macs + be16_bytes(ETHERTYPE_IPV6)
            + ipv6_header(ep.src_ip, ep.dst_ip, tcp.len() as int) + tcp,
        _ => Seq::empty(),
    }
}

fn push_two(out: &mut Vec<u8>, a: u8, b: u8)
    ensures
        final(out)@ == old(out)@ + seq![a, b],
{
    out.push(a);
    out.push(b);
    assert(out@ =~= old(out)@ + seq![a, b]);
}

fn push_four(out: &mut Vec<u8>, a: u8, b: u8, c: u8, d: u8)
    ensures
        final(out)@ == old(out)@ + seq![a, b, c, d],
{
    out.push(a);
    out.push(b);
    out.push(c);
    out.push(d);
    assert(out@ =~= old(out)@ + seq![a, b, c, d]);
}

fn make_tcp(
    ep: &Endpoint,
    seq: u32,
    ack: u32,
    flags: u8,
    window: u16,
    ck: u16,
    payload: &[u8],
) -> (r: Vec<u8>)
    ensures
        r@ == tcp_bytes(ep@, seq, ack, flags, window, ck, payload@),
{
    let mut out: Vec<u8> = Vec::new();
    push_be16(&mut out, ep.src_port);
    assert(out@ =~= be16_bytes(ep.src_port));
    push_be16(&mut out, ep.dst_port);
    push_be32(&mut out, seq);
    push_be32(&mut out, ack);
    push_two(&mut out, 0x50, flags);  // data offset 5 words, no options
    push_be16(&mut out, window);
    push_be16(&mut out, ck);
    push_two(&mut out, 0, 0);  // urgent pointer
    push_all(&mut out, payload);
    out
}

fn make_ipv4_header(src: u32, dst: u32, ip_id: u16, len: usize, ck: u16) -> (r: Vec<u8>)
    ensures
        r@ == ipv4_header(src, dst, ip_id, len as int, ck),
{
    let total: u16 = ((len % 65536 + 20) % 65536) as u16;
    assert(total == (20 + len) % 65536);
    let mut out: Vec<u8> = Vec::new();
    push_two(&mut out, 0x45, 0);
    assert(out@ =~= seq![0x45u8, 0u8]);
    push_be16(&mut out, total);
    push_be16(&mut out, ip_id);
    // don't fragment, ttl
    push_four(&mut out, 0x40, 0, 64, IPPROTO_TCP);
    push_be16(&mut out, ck);
    push_be32(&mut out, src);
    push_be32(&mut out, dst);
    out
}

fn make_ipv6_header(src: &IpAddr, dst: &IpAddr, len: usize) -> (r: Vec<u8>)
    ensures
        r@ == ipv6_header(*src, *dst, len as int),
{
    let mut out: Vec<u8> = Vec::new();
    push_four(&mut out, 0x60, 0, 0, 0);
    assert(out@ =~= seq![0x60u8, 0u8, 0u8, 0u8]);
    push_be16(&mut out, (len % 65536) as u16);
    push_two(&mut out, IPPROTO_TCP, 64);  // hop limit
    src.write(&mut out);
    dst.write(&mut out);
    out
}

fn sum_ip(ip: &IpAddr, acc: u32) -> (r: u32)
    ensures
        r == add32(acc, word_sum(ip_bytes(*ip)) as int),
{
    let mut b: Vec<u8> = Vec::new();
    ip.write(&mut b);
    assert(b@ =~= ip_bytes(*ip));
    sum16(&b, acc)
}

fn pseudo_header_sum(src: &IpAddr, dst: &IpAddr, len: usize) -> (r: u32)
    ensures
        r == pseudo_sum(*src, *dst, len as int),
{
    let len: u64 = len as u64 % 0x1_0000_0000;
    let ips: u32 = sum_ip(dst, sum_ip(src, 0));
    match (*src, *dst) {
        (IpAddr::V4(_), IpAddr::V4(_)) => seq_plus(ips, 6 + len),
        (IpAddr::V6(_, _, _, _), IpAddr::V6(_, _, _, _)) => seq_plus(
            ips,
            len / 65536 + len % 65536 + 6,
        ),
        _ => 0,
    }
}

/// Build one Ethernet + IP + TCP packet. VLAN tags from the original capture
/// are intentionally not reproduced; the normalized capture is an analysis
/// artifact, not a wire replica.
pub fn build_tcp_packet(
    ep: &Endpoint,
    seq: u32,
    ack: u32,
    flags: u8,
    window: u16,
    ip_id: u16,
    payload: &[u8],
) -> (r: Vec<u8>)
    ensures
        r@ == packet_bytes(ep@, seq, ack, flags, window, ip_id, payload@),
{
    let bare: Vec<u8> = make_tcp(ep, seq, ack, flags, window, 0, payload);
    let tcp_len: usize = bare.len();
    let ck: u16 = fold(sum16(&bare, pseudo_header_sum(&ep.src_ip, &ep.dst_ip, tcp_len)));
    let tcp: Vec<u8> = make_tcp(ep, seq, ack, flags, window, ck, payload);
    assert(tcp@.len() == tcp_len);
    let mut out: Vec<u8> = Vec::new();
    push_all(&mut out, &ep.eth_dst);
    push_all(&mut out, &ep.eth_src);
    assert(out@ =~= ep.eth_dst@ + ep.eth_src@);
    match (ep.src_ip, ep.dst_ip) {
        (IpAddr::V4(s), IpAddr::V4(d)) => {
            push_be16(&mut out, ETHERTYPE_IPV4);
            let ip: Vec<u8> = make_ipv4_header(s, d, ip_id, tcp_len, 0);
            let hck: u16 = fold(sum16(&ip, 0));
            push_all(&mut out, &make_ipv4_header(s, d, ip_id, tcp_len, hck));
        },
        (IpAddr::V6(_, _, _, _), IpAddr::V6(_, _, _, _)) => {
            push_be16(&mut out, ETHERTYPE_IPV6);
            push_all(&mut out, &make_ipv6_header(&ep.src_ip, &ep.dst_ip, tcp_len));
        },
        _ => {
            let none: Vec<u8> = Vec::new();
            return none;
        },
    }
    push_all(&mut out, &tcp);
    out
}

} // verus!
