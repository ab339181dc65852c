//! Laws of the packet layer: what is built parses back to the same segment, and
//! its checksums are right.
use vstd::prelude::*;

use crate::addr::{ip_bytes, IpAddr};
use crate::bytes::{add32, be16_at, be16_bytes, be32_at, be32_bytes};
use crate::pkt::{
    behind_extensions, behind_tags, checksum, folded, ipv4_header, ipv4_header_summed, ipv4_in,
    ipv6_at, ipv6_header, ipv6_in, packet_bytes, pseudo_sum, reversed_endpoint, segment_behind,
    segment_in, tcp_bytes, tcp_checksum, tcp_in, word_sum, EndpointView, IpView, SegmentView,
    ETHERTYPE_IPV4, ETHERTYPE_IPV6,
};

verus! {

/// Whether the MAC addresses are as long as they have to be.
pub open spec fn has_macs(ep: EndpointView) -> bool {
    ep.eth_dst.len() == 6 && ep.eth_src.len() == 6
}

/// The segment that a packet is built from.
pub open spec fn segment_of(
    ep: EndpointView,
    seq: u32,
    ack: u32,
    flags: u8,
    payload: Seq<u8>,
) -> SegmentView {
    SegmentView {
        eth_dst: ep.eth_dst,
        eth_src: ep.eth_src,
        src_ip: ep.src_ip,
        dst_ip: ep.dst_ip,
        src_port: ep.src_port,
        dst_port: ep.dst_port,
        seq,
        ack,
        flags,
        payload,
    }
}

proof fn lemma_tcp_fields(
    ep: EndpointView,
    seq: u32,
    ack: u32,
    flags: u8,
    window: u16,
    ck: u16,
    payload: Seq<u8>,
    pad: Seq<u8>,
)
    ensures
        ({
            let t = tcp_bytes(ep, seq, ack, flags, window, ck, payload);
            let l4 = t + pad;
            &&& t.len() == 20 + payload.len()
            &&& be16_at(l4, 0) == ep.src_port
            &&& be16_at(l4, 2) == ep.dst_port
            &&& be32_at(l4, 4) == seq
            &&& be32_at(l4, 8) == ack
            &&& l4[12] == 0x50
            &&& l4[13] == flags
            &&& l4.subrange(20, 20int + payload.len()) == payload
        }),
{
    let t = tcp_bytes(ep, seq, ack, flags, window, ck, payload);
    let l4 = t + pad;
    assert(l4[0] == be16_bytes(ep.src_port)[0]);
    assert(l4[1] == be16_bytes(ep.src_port)[1]);
    assert(l4[2] == be16_bytes(ep.dst_port)[0]);
    assert(l4[3] == be16_bytes(ep.dst_port)[1]);
    assert(l4[4] == be32_bytes(seq)[0]);
    assert(l4[5] == be32_bytes(seq)[1]);
    assert(l4[6] == be32_bytes(seq)[2]);
    assert(l4[7] == be32_bytes(seq)[3]);
    assert(l4[8] == be32_bytes(ack)[0]);
    assert(l4[9] == be32_bytes(ack)[1]);
    assert(l4[10] == be32_bytes(ack)[2]);
    assert(l4[11] == be32_bytes(ack)[3]);
    assert(l4.subrange(20, 20int + payload.len()) =~= payload);
}

#[verifier::rlimit(40)]
proof fn lemma_ipv4_fields(src: u32, dst: u32, ip_id: u16, len: int, ck: u16, rest: Seq<u8>)
    requires
        20 <= len < 65516,
    ensures
        ({
            let h = ipv4_header(src, dst, ip_id, len, ck);
            &&& h.len() == 20
            &&& ipv4_in(h + rest) == Some(
                IpView { src: IpAddr::V4(src), dst: IpAddr::V4(dst), l4: rest, l4_len: len },
            )
        }),
{
    let h = ipv4_header(src, dst, ip_id, len, ck);
    let ip = h + rest;
    let total = (20 + len) as u16;
    assert(ip[0] == 0x45);
    assert(ip[2] == be16_bytes(total)[0]);
    assert(ip[3] == be16_bytes(total)[1]);
    assert(be16_at(ip, 2) == 20 + len);
    assert(ip[6] == 0x40 && ip[7] == 0);
    assert(be16_at(ip, 6) == 0x4000);
    assert(ip[9] == 6);
    assert(ip[12] == be32_bytes(src)[0]);
    assert(ip[13] == be32_bytes(src)[1]);
    assert(ip[14] == be32_bytes(src)[2]);
    assert(ip[15] == be32_bytes(src)[3]);
    assert(be32_at(ip, 12) == src);
    assert(ip[16] == be32_bytes(dst)[0]);
    assert(ip[17] == be32_bytes(dst)[1]);
    assert(ip[18] == be32_bytes(dst)[2]);
    assert(ip[19] == be32_bytes(dst)[3]);
    assert(be32_at(ip, 16) == dst);
    assert(ip.skip(20) =~= rest);
}

proof fn lemma_be32_in(s: Seq<u8>, i: int, x: u32)
    requires
        0 <= i,
        i + 4 <= s.len(),
        s.subrange(i, i + 4) == be32_bytes(x),
    ensures
        be32_at(s, i) == x,
{
    let t = s.subrange(i, i + 4);
    assert(t[0] == s[i] && t[1] == s[i + 1] && t[2] == s[i + 2] && t[3] == s[i + 3]);
}

proof fn lemma_ipv6_bytes_at(ip: IpAddr, s: Seq<u8>, i: int)
    requires
        ip is V6,
        0 <= i,
        i + 16 <= s.len(),
        s.subrange(i, i + 16) == ip_bytes(ip),
    ensures
        ipv6_at(s, i) == ip,
{
    if let IpAddr::V6(a, b, c, d) = ip {
        let t = s.subrange(i, i + 16);
        assert(s.subrange(i, i + 4) =~= t.subrange(0, 4));
        assert(s.subrange(i + 4, i + 8) =~= t.subrange(4, 8));
        assert(s.subrange(i + 8, i + 12) =~= t.subrange(8, 12));
        assert(s.subrange(i + 12, i + 16) =~= t.subrange(12, 16));
        lemma_four_words(a, b, c, d);
        lemma_be32_in(s, i, a);
        lemma_be32_in(s, i + 4, b);
        lemma_be32_in(s, i + 8, c);
        lemma_be32_in(s, i + 12, d);
    }
}

proof fn lemma_four_words(a: u32, b: u32, c: u32, d: u32)
    ensures
        ({
            let t = ip_bytes(IpAddr::V6(a, b, c, d));
            &&& t.len() == 16
            &&& t.subrange(0, 4) == be32_bytes(a)
            &&& t.subrange(4, 8) == be32_bytes(b)
            &&& t.subrange(8, 12) == be32_bytes(c)
            &&& t.subrange(12, 16) == be32_bytes(d)
        }),
{
    let t = ip_bytes(IpAddr::V6(a, b, c, d));
    assert(t.subrange(0, 4) =~= be32_bytes(a));
    assert(t.subrange(4, 8) =~= be32_bytes(b));
    assert(t.subrange(8, 12) =~= be32_bytes(c));
    assert(t.subrange(12, 16) =~= be32_bytes(d));
}

proof fn lemma_ipv6_layout(head: Seq<u8>, src: Seq<u8>, dst: Seq<u8>, rest: Seq<u8>)
    requires
        head.len() == 8,
        src.len() == 16,
        dst.len() == 16,
    ensures
        ({
            let ip = head + src + dst + rest;
            &&& forall|i: int| 0 <= i < 8 ==> ip[i] == #[trigger] head[i]
            &&& ip.subrange(8, 24) == src
            &&& ip.subrange(24, 40) == dst
            &&& ip.skip(40) == rest
            &&& ip.len() == 40 + rest.len()
        }),
{
    let ip = head + src + dst + rest;
    assert(ip.subrange(8, 24) =~= src);
    assert(ip.subrange(24, 40) =~= dst);
    assert(ip.skip(40) =~= rest);
}

proof fn lemma_ipv6_fields(src: IpAddr, dst: IpAddr, len: int, rest: Seq<u8>)
    requires
        src is V6,
        dst is V6,
        20 <= len < 65536,
    ensures
        ({
            let h = ipv6_header(src, dst, len);
            &&& h.len() == 40
            &&& ipv6_in(h + rest) == Some(IpView { src, dst, l4: rest, l4_len: len })
        }),
{
    let head = seq![0x60u8, 0u8, 0u8, 0u8] + be16_bytes(len as u16) + seq![6u8, 64u8];
    let ip = ipv6_header(src, dst, len) + rest;
    assert(len % 65536 == len);
    lemma_ipv6_words(src);
    lemma_ipv6_words(dst);
    lemma_ipv6_layout(head, ip_bytes(src), ip_bytes(dst), rest);
    assert(ip == head + ip_bytes(src) + ip_bytes(dst) + rest);
    lemma_ipv6_head(head, len);
    assert(ip[0] == head[0] && ip[4] == head[4] && ip[5] == head[5] && ip[6] == head[6]);
    lemma_ipv6_bytes_at(src, ip, 8);
    lemma_ipv6_bytes_at(dst, ip, 24);
    lemma_ipv6_found(ip, src, dst, len, rest);
}

proof fn lemma_ipv6_head(head: Seq<u8>, len: int)
    requires
        0 <= len < 65536,
        head == seq![0x60u8, 0u8, 0u8, 0u8] + be16_bytes(len as u16) + seq![6u8, 64u8],
    ensures
        head[0] == 0x60,
        head[6] == 6,
        head[4] * 256 + head[5] == len,
{
    assert(head[4] == be16_bytes(len as u16)[0]);
    assert(head[5] == be16_bytes(len as u16)[1]);
}

proof fn lemma_ipv6_found(ip: Seq<u8>, src: IpAddr, dst: IpAddr, len: int, rest: Seq<u8>)
    requires
        ip.len() == 40 + rest.len(),
        ip[0] == 0x60,
        ip[6] == 6,
        ip[4] * 256 + ip[5] == len,
        ipv6_at(ip, 8) == src,
        ipv6_at(ip, 24) == dst,
        ip.skip(40) == rest,
        0 <= len,
    ensures
        ipv6_in(ip) == Some(IpView { src, dst, l4: rest, l4_len: len }),
{
    assert(be16_at(ip, 4) == len);
    assert(behind_extensions(ip, 6, 40, len as nat) == Some((40int, len as nat)));
}

proof fn lemma_ipv6_words(ip: IpAddr)
    requires
        ip is V6,
    ensures
        ip_bytes(ip).len() == 16,
{
}

/// Where things stand in an untagged frame.
proof fn lemma_frame_layout(dst: Seq<u8>, src: Seq<u8>, ethertype: u16, rest: Seq<u8>)
    requires
        dst.len() == 6,
        src.len() == 6,
        ethertype == ETHERTYPE_IPV4 || ethertype == ETHERTYPE_IPV6,
    ensures
        ({
            let frame = dst + src + be16_bytes(ethertype) + rest;
            &&& frame.len() == 14 + rest.len()
            &&& be16_at(frame, 12) == ethertype
            &&& behind_tags(frame, be16_at(frame, 12), 14) == Some((ethertype as int, 14int))
            &&& frame.subrange(0, 6) == dst
            &&& frame.subrange(6, 12) == src
            &&& frame.skip(14) == rest
        }),
{
    let frame = dst + src + be16_bytes(ethertype) + rest;
    assert(frame[12] == be16_bytes(ethertype)[0]);
    assert(frame[13] == be16_bytes(ethertype)[1]);
    assert(frame.subrange(0, 6) =~= dst);
    assert(frame.subrange(6, 12) =~= src);
    assert(frame.skip(14) =~= rest);
}

proof fn lemma_tcp_parses(
    frame: Seq<u8>,
    ep: EndpointView,
    seq: u32,
    ack: u32,
    flags: u8,
    window: u16,
    ck: u16,
    payload: Seq<u8>,
    pad: Seq<u8>,
)
    requires
        frame.subrange(0, 6) == ep.eth_dst,
        frame.subrange(6, 12) == ep.eth_src,
    ensures
        ({
            let tcp = tcp_bytes(ep, seq, ack, flags, window, ck, payload);
            tcp_in(
                frame,
                IpView {
                    src: ep.src_ip,
                    dst: ep.dst_ip,
                    l4: tcp + pad,
                    l4_len: tcp.len() as int,
                },
            ) == Some(segment_of(ep, seq, ack, flags, payload))
        }),
{
    lemma_tcp_fields(ep, seq, ack, flags, window, ck, payload, pad);
}

proof fn lemma_v4_packet(
    ep: EndpointView,
    s: u32,
    d: u32,
    seq: u32,
    ack: u32,
    flags: u8,
    window: u16,
    ck: u16,
    ip_id: u16,
    hck: u16,
    payload: Seq<u8>,
    pad: Seq<u8>,
)
    requires
        has_macs(ep),
        ep.src_ip == IpAddr::V4(s),
        ep.dst_ip == IpAddr::V4(d),
        40 + payload.len() < 65536,
    ensures
        ({
            let tcp = tcp_bytes(ep, seq, ack, flags, window, ck, payload);
            let ip = ipv4_header(s, d, ip_id, tcp.len() as int, hck) + (tcp + pad);
            segment_in(ep.eth_dst + ep.eth_src + be16_bytes(ETHERTYPE_IPV4) + ip) == Some(
                segment_of(ep, seq, ack, flags, payload),
            )
        }),
{
    let tcp = tcp_bytes(ep, seq, ack, flags, window, ck, payload);
    let ip = ipv4_header(s, d, ip_id, tcp.len() as int, hck) + (tcp + pad);
    let frame = ep.eth_dst + ep.eth_src + be16_bytes(ETHERTYPE_IPV4) + ip;
    lemma_tcp_fields(ep, seq, ack, flags, window, ck, payload, pad);
    lemma_frame_layout(ep.eth_dst, ep.eth_src, ETHERTYPE_IPV4, ip);
    lemma_ipv4_fields(s, d, ip_id, tcp.len() as int, hck, tcp + pad);
    lemma_tcp_parses(frame, ep, seq, ack, flags, window, ck, payload, pad);
}

proof fn lemma_v6_packet(
    ep: EndpointView,
    seq: u32,
    ack: u32,
    flags: u8,
    window: u16,
    ck: u16,
    payload: Seq<u8>,
    pad: Seq<u8>,
)
    requires
        has_macs(ep),
        ep.src_ip is V6,
        ep.dst_ip is V6,
        20 + payload.len() < 65536,
    ensures
        ({
            let tcp = tcp_bytes(ep, seq, ack, flags, window, ck, payload);
            let ip = ipv6_header(ep.src_ip, ep.dst_ip, tcp.len() as int) + (tcp + pad);
            segment_in(ep.eth_dst + ep.eth_src + be16_bytes(ETHERTYPE_IPV6) + ip) == Some(
                segment_of(ep, seq, ack, flags, payload),
            )
        }),
{
    let tcp = tcp_bytes(ep, seq, ack, flags, window, ck, payload);
    let ip = ipv6_header(ep.src_ip, ep.dst_ip, tcp.len() as int) + (tcp + pad);
    let frame = ep.eth_dst + ep.eth_src + be16_bytes(ETHERTYPE_IPV6) + ip;
    lemma_tcp_fields(ep, seq, ack, flags, window, ck, payload, pad);
    lemma_frame_layout(ep.eth_dst, ep.eth_src, ETHERTYPE_IPV6, ip);
    lemma_ipv6_fields(ep.src_ip, ep.dst_ip, tcp.len() as int, tcp + pad);
    lemma_tcp_parses(frame, ep, seq, ack, flags, window, ck, payload, pad);
}

proof fn lemma_concat_regroups(a: Seq<u8>, b: Seq<u8>, c: Seq<u8>, pad: Seq<u8>)
    ensures
        a + b + c + pad == a + (b + (c + pad)),
{
    assert(a + b + c + pad =~= a + (b + (c + pad)));
}

/// A packet that is built parses back to the segment it was built from, and any
/// padding behind it stays out of the payload. The IP length fields have to hold
/// the length.
pub proof fn law_packet_round_trip(
    ep: EndpointView,
    seq: u32,
    ack: u32,
    flags: u8,
    window: u16,
    ip_id: u16,
    payload: Seq<u8>,
    pad: Seq<u8>,
)
    requires
        has_macs(ep),
        (ep.src_ip is V4 && ep.dst_ip is V4 && 40 + payload.len() < 65536) || (ep.src_ip is V6
            && ep.dst_ip is V6 && 20 + payload.len() < 65536),
    ensures
        segment_in(packet_bytes(ep, seq, ack, flags, window, ip_id, payload) + pad) == Some(
            segment_of(ep, seq, ack, flags, payload),
        ),
{
    let bare = tcp_bytes(ep, seq, ack, flags, window, 0, payload);
    let ck = tcp_checksum(ep.src_ip, ep.dst_ip, bare);
    let tcp = tcp_bytes(ep, seq, ack, flags, window, ck, payload);
    let len = tcp.len() as int;
    let macs = ep.eth_dst + ep.eth_src;
    match (ep.src_ip, ep.dst_ip) {
        (IpAddr::V4(s), IpAddr::V4(d)) => {
            let hck = checksum(add32(0, word_sum(ipv4_header(s, d, ip_id, len, 0)) as int));
            lemma_v4_packet(ep, s, d, seq, ack, flags, window, ck, ip_id, hck, payload, pad);
            lemma_concat_regroups(
                macs + be16_bytes(ETHERTYPE_IPV4),
                ipv4_header_summed(s, d, ip_id, len),
                tcp,
                pad,
            );
        },
        (IpAddr::V6(_, _, _, _), IpAddr::V6(_, _, _, _)) => {
            lemma_v6_packet(ep, seq, ack, flags, window, ck, payload, pad);
            lemma_concat_regroups(
                macs + be16_bytes(ETHERTYPE_IPV6),
                ipv6_header(ep.src_ip, ep.dst_ip, len),
                tcp,
                pad,
            );
        },
        _ => {},
    }
}

/// A VLAN tag in front changes nothing about the segment that is found: the tag
/// is skipped.
pub proof fn law_vlan_tag_is_skipped(frame: Seq<u8>, tag: u16, tci: Seq<u8>)
    requires
        frame.len() >= 14,
        tag == 0x8100 || tag == 0x88a8,
        tci.len() == 2,
    ensures
        segment_in(frame.take(12) + be16_bytes(tag) + tci + frame.skip(12)) == segment_in(frame),
{
    let tagged = frame.take(12) + be16_bytes(tag) + tci + frame.skip(12);
    lemma_tagged_layout(frame, tag, tci);
    lemma_tags_shift(frame, tagged, be16_at(frame, 12), 14);
    assert(behind_tags(tagged, tag as int, 14) == behind_tags(tagged, be16_at(tagged, 16), 18));
    lemma_tags_bound(frame, be16_at(frame, 12), 14);
    if let Some((ethertype, off)) = behind_tags(frame, be16_at(frame, 12), 14) {
        assert(tagged.skip(16).skip(off - 12) =~= tagged.skip(off + 4));
        assert(frame.skip(12).skip(off - 12) =~= frame.skip(off));
        lemma_segment_behind(frame, tagged, ethertype, off, off + 4);
    }
}

proof fn lemma_tagged_layout(frame: Seq<u8>, tag: u16, tci: Seq<u8>)
    requires
        frame.len() >= 14,
        tci.len() == 2,
    ensures
        ({
            let tagged = frame.take(12) + be16_bytes(tag) + tci + frame.skip(12);
            &&& tagged.len() == frame.len() + 4
            &&& be16_at(tagged, 12) == tag
            &&& be16_at(tagged, 16) == be16_at(frame, 12)
            &&& tagged.subrange(0, 6) == frame.subrange(0, 6)
            &&& tagged.subrange(6, 12) == frame.subrange(6, 12)
            &&& tagged.skip(16) == frame.skip(12)
        }),
{
    let tagged = frame.take(12) + be16_bytes(tag) + tci + frame.skip(12);
    assert(tagged[12] == be16_bytes(tag)[0]);
    assert(tagged[13] == be16_bytes(tag)[1]);
    assert(tagged[16] == frame[12]);
    assert(tagged[17] == frame[13]);
    assert(tagged.subrange(0, 6) =~= frame.subrange(0, 6));
    assert(tagged.subrange(6, 12) =~= frame.subrange(6, 12));
    assert(tagged.skip(16) =~= frame.skip(12));
}

proof fn lemma_segment_behind(
    f: Seq<u8>,
    g: Seq<u8>,
    ethertype: int,
    off_f: int,
    off_g: int,
)
    requires
        f.skip(off_f) == g.skip(off_g),
        f.subrange(0, 6) == g.subrange(0, 6),
        f.subrange(6, 12) == g.subrange(6, 12),
    ensures
        segment_behind(f, ethertype, off_f) == segment_behind(g, ethertype, off_g),
{
}

proof fn lemma_tags_bound(frame: Seq<u8>, ethertype: int, off: int)
    requires
        0 <= off <= frame.len(),
    ensures
        behind_tags(frame, ethertype, off) matches Some((_, o)) ==> off <= o <= frame.len(),
    decreases frame.len() - off,
{
    if (ethertype == 0x8100 || ethertype == 0x88a8) && frame.len() >= off + 4 {
        lemma_tags_bound(frame, be16_at(frame, off + 2), off + 4);
    }
}

proof fn lemma_tags_shift(frame: Seq<u8>, tagged: Seq<u8>, ethertype: int, off: int)
    requires
        14 <= off <= frame.len(),
        tagged.len() == frame.len() + 4,
        tagged.skip(16) == frame.skip(12),
    ensures
        match behind_tags(frame, ethertype, off) {
            Some((e, o)) => behind_tags(tagged, ethertype, off + 4) == Some((e, o + 4)),
            None => behind_tags(tagged, ethertype, off + 4) is None,
        },
    decreases frame.len() - off,
{
    if (ethertype == 0x8100 || ethertype == 0x88a8) && frame.len() >= off + 4 {
        assert(tagged[off + 6] == tagged.skip(16)[off - 10]);
        assert(tagged[off + 7] == tagged.skip(16)[off - 9]);
        assert(frame[off + 2] == frame.skip(12)[off - 10]);
        assert(frame[off + 3] == frame.skip(12)[off - 9]);
        assert(be16_at(tagged, off + 6) == be16_at(frame, off + 2));
        lemma_tags_shift(frame, tagged, be16_at(frame, off + 2), off + 4);
    }
}

// ---------------------------------------------------------------------------
// Checksums
// ---------------------------------------------------------------------------

proof fn lemma_folded(acc: nat)
    ensures
        folded(acc) < 65536,
        folded(acc) % 65535 == acc % 65535,
        folded(acc) == 0 <==> acc == 0,
    decreases acc,
{
    if acc >= 65536 {
        lemma_folded(acc % 65536 + acc / 65536);
    }
}

/// A sum plus the checksum of that sum has the checksum zero.
pub proof fn law_checksum_completes(sum: u32)
    requires
        sum + 65535 <= u32::MAX,
    ensures
        checksum((sum + checksum(sum)) as u32) == 0,
{
    lemma_folded(sum as nat);
    lemma_folded((sum + checksum(sum)) as nat);
}

proof fn lemma_word_sum_concat(a: Seq<u8>, b: Seq<u8>)
    requires
        a.len() % 2 == 0,
    ensures
        word_sum(a + b) == word_sum(a) + word_sum(b),
    decreases a.len(),
{
    if a.len() == 0 {
        assert(a + b =~= b);
    } else {
        assert((a + b).skip(2) =~= a.skip(2) + b);
        lemma_word_sum_concat(a.skip(2), b);
        assert(be16_at(a + b, 0) == be16_at(a, 0));
    }
}

proof fn lemma_word_sum_bound(s: Seq<u8>)
    ensures
        word_sum(s) <= 32768 * (s.len() + 1),
    decreases s.len(),
{
    if s.len() >= 2 {
        lemma_word_sum_bound(s.skip(2));
    }
}

proof fn lemma_word_sum_two(x: u16)
    ensures
        word_sum(be16_bytes(x)) == x,
{
    assert(be16_bytes(x).skip(2) =~= Seq::<u8>::empty());
    assert(word_sum(Seq::<u8>::empty()) == 0);
}

/// The sum over a header in which the checksum field holds `ck` is the sum over
/// the one in which it is zero, plus `ck`.
proof fn lemma_sum_with_checksum(head: Seq<u8>, ck: u16, tail: Seq<u8>)
    requires
        head.len() % 2 == 0,
    ensures
        word_sum(head + be16_bytes(ck) + tail) == word_sum(head + be16_bytes(0) + tail) + ck,
{
    lemma_word_sum_concat(head, be16_bytes(ck));
    lemma_word_sum_concat(head, be16_bytes(0));
    lemma_word_sum_concat(head + be16_bytes(ck), tail);
    lemma_word_sum_concat(head + be16_bytes(0), tail);
    lemma_word_sum_two(ck);
    lemma_word_sum_two(0);
}

/// The checksum of every IPv4 header that is built verifies: summing the whole
/// header gives zero.
pub proof fn law_ipv4_checksum_verifies(src: u32, dst: u32, ip_id: u16, len: int)
    ensures
        checksum(add32(0, word_sum(ipv4_header_summed(src, dst, ip_id, len)) as int)) == 0,
{
    let head = seq![0x45u8, 0u8] + be16_bytes(((20 + len) % 65536) as u16) + be16_bytes(ip_id)
        + seq![0x40u8, 0u8, 64u8, 6u8];
    let tail = be32_bytes(src) + be32_bytes(dst);
    let bare = ipv4_header(src, dst, ip_id, len, 0);
    let ck = checksum(add32(0, word_sum(bare) as int));
    lemma_sum_with_checksum(head, ck, tail);
    assert(bare =~= head + be16_bytes(0) + tail);
    assert(ipv4_header_summed(src, dst, ip_id, len) =~= head + be16_bytes(ck) + tail);
    lemma_word_sum_bound(bare);
    law_checksum_completes(word_sum(bare) as u32);
}

proof fn lemma_ip_sum_bound(ip: IpAddr)
    ensures
        word_sum(ip_bytes(ip)) <= 600000,
{
    let b = ip_bytes(ip);
    assert(b.len() <= 16);
    lemma_word_sum_bound(b);
}

proof fn lemma_add32_small(x: u32, n: int)
    requires
        0 <= n,
        x + n <= u32::MAX,
    ensures
        add32(x, n) == x + n,
{
}

proof fn lemma_pseudo_bound(src: IpAddr, dst: IpAddr, len: int)
    requires
        0 <= len <= 70000,
    ensures
        pseudo_sum(src, dst, len) <= 1400000,
{
    let a = word_sum(ip_bytes(src)) as int;
    let b = word_sum(ip_bytes(dst)) as int;
    lemma_ip_sum_bound(src);
    lemma_ip_sum_bound(dst);
    lemma_add32_small(0, a);
    lemma_add32_small(a as u32, b);
    lemma_add32_small((a + b) as u32, 6 + len);
    lemma_add32_small((a + b) as u32, len / 65536 + len % 65536 + 6);
}

spec fn tcp_head(ep: EndpointView, seq: u32, ack: u32, flags: u8, window: u16) -> Seq<u8> {
    be16_bytes(ep.src_port) + be16_bytes(ep.dst_port) + be32_bytes(seq) + be32_bytes(ack) + seq![
        0x50u8,
        flags,
    ] + be16_bytes(window)
}

proof fn lemma_tcp_splits(
    ep: EndpointView,
    seq: u32,
    ack: u32,
    flags: u8,
    window: u16,
    ck: u16,
    payload: Seq<u8>,
)
    ensures
        tcp_head(ep, seq, ack, flags, window).len() == 16,
        tcp_bytes(ep, seq, ack, flags, window, ck, payload) == tcp_head(ep, seq, ack, flags, window)
            + be16_bytes(ck) + (seq![0u8, 0u8] + payload),
        tcp_bytes(ep, seq, ack, flags, window, ck, payload).len() == 20 + payload.len(),
{
    assert(tcp_bytes(ep, seq, ack, flags, window, ck, payload) =~= tcp_head(
        ep,
        seq,
        ack,
        flags,
        window,
    ) + be16_bytes(ck) + (seq![0u8, 0u8] + payload));
}

proof fn lemma_sum_completes(head: Seq<u8>, tail: Seq<u8>, pseudo: u32)
    requires
        head.len() % 2 == 0,
        pseudo + 32768 * (head.len() + tail.len() + 3) + 65535 <= u32::MAX,
    ensures
        ({
            let ck = checksum(
                add32(pseudo, word_sum(head + be16_bytes(0) + tail) as int),
            );
            checksum(add32(pseudo, word_sum(head + be16_bytes(ck) + tail) as int)) == 0
        }),
{
    let bare = head + be16_bytes(0) + tail;
    lemma_word_sum_bound(bare);
    let sum = (pseudo + word_sum(bare)) as u32;
    assert(add32(pseudo, word_sum(bare) as int) == sum);
    let ck = checksum(sum);
    lemma_sum_with_checksum(head, ck, tail);
    law_checksum_completes(sum);
}

/// The checksum of every TCP segment that is built verifies: summing the pseudo
/// header and the whole segment gives zero. The length has to stay below what
/// would overflow a 32-bit sum.
pub proof fn law_tcp_checksum_verifies(
    ep: EndpointView,
    seq: u32,
    ack: u32,
    flags: u8,
    window: u16,
    payload: Seq<u8>,
)
    requires
        (ep.src_ip is V4 && ep.dst_ip is V4) || (ep.src_ip is V6 && ep.dst_ip is V6),
        payload.len() <= 65535,
    ensures
        ({
            let bare = tcp_bytes(ep, seq, ack, flags, window, 0, payload);
            let ck = tcp_checksum(ep.src_ip, ep.dst_ip, bare);
            let tcp = tcp_bytes(ep, seq, ack, flags, window, ck, payload);
            tcp_checksum(ep.src_ip, ep.dst_ip, tcp) == 0
        }),
{
    let bare = tcp_bytes(ep, seq, ack, flags, window, 0, payload);
    let ck = tcp_checksum(ep.src_ip, ep.dst_ip, bare);
    let pseudo = pseudo_sum(ep.src_ip, ep.dst_ip, 20int + payload.len());
    lemma_tcp_splits(ep, seq, ack, flags, window, 0, payload);
    lemma_tcp_splits(ep, seq, ack, flags, window, ck, payload);
    lemma_pseudo_bound(ep.src_ip, ep.dst_ip, 20int + payload.len());
    lemma_sum_completes(
        tcp_head(ep, seq, ack, flags, window),
        seq![0u8, 0u8] + payload,
        pseudo,
    );
}

/// Seeing an endpoint from the other side twice gives it back.
pub proof fn law_reversal_undoes_itself(e: EndpointView)
    ensures
        reversed_endpoint(reversed_endpoint(e)) == e,
{
}

} // verus!
