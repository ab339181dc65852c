//! Where things stand in a packet: every field of a segment is read off its place,
//! and neither TCP options nor IP options nor extension headers are payload.
use vstd::prelude::*;

use crate::addr::IpAddr;
use crate::bytes::{be16_at, be32_at};
use crate::pkt::{
    behind_extensions, behind_tags, ipv4_in, ipv6_at, ipv6_in, segment_behind, segment_in, tcp_in,
    IpView, ETHERTYPE_QINQ, ETHERTYPE_VLAN,
};

verus! {

/// The frame with `opts` put in at `at`, its 16-bit length field at `len_at` raised
/// by as much, and the byte at `off_at` raised by `step` for every four bytes.
#[verifier::opaque]
pub open spec fn with_inserted(
    frame: Seq<u8>,
    at: int,
    opts: Seq<u8>,
    len_at: int,
    off_at: int,
    step: int,
) -> Seq<u8> {
    let len = be16_at(frame, len_at) + opts.len();
    frame.take(at).update(len_at, (len / 256) as u8).update(len_at + 1, (len % 256) as u8).update(
        off_at,
        (frame[off_at] + step * (opts.len() / 4)) as u8,
    ) + opts + frame.skip(at)
}

/// What is where in such a frame.
proof fn lemma_inserted_layout(
    frame: Seq<u8>,
    at: int,
    opts: Seq<u8>,
    len_at: int,
    off_at: int,
    step: int,
)
    requires
        0 <= len_at < len_at + 1 < at <= frame.len(),
        0 <= off_at < at,
        off_at != len_at,
        off_at != len_at + 1,
        be16_at(frame, len_at) + opts.len() <= 65535,
        0 <= frame[off_at] + step * (opts.len() / 4) <= 255,
    ensures
        ({
            let g = with_inserted(frame, at, opts, len_at, off_at, step);
            let n = opts.len() as int;
            &&& g.len() == frame.len() + n
            &&& g[len_at] * 256 + g[len_at + 1] == be16_at(frame, len_at) + n
            &&& g[off_at] == frame[off_at] + step * (n / 4)
            &&& forall|i: int|
                0 <= i < at && i != len_at && i != len_at + 1 && i != off_at ==> frame[i]
                    == #[trigger] g[i]
            &&& forall|i: int| #![trigger frame[i]] at <= i < frame.len() ==> frame[i] == g[i + n]
        }),
{
    reveal(with_inserted);
}

/// A frame's segment lies behind its tags.
proof fn lemma_segment_lies(frame: Seq<u8>, e: int, off: int)
    requires
        frame.len() >= 14,
        behind_tags(frame, be16_at(frame, 12), 14) == Some((e, off)),
    ensures
        segment_in(frame) == segment_behind(frame, e, off),
{
}

/// Two IPv4 packets of which the second has `n` more bytes behind the IP header.
proof fn lemma_ipv4_longer(ip: Seq<u8>, jp: Seq<u8>, n: int)
    requires
        ipv4_in(ip) is Some,
        n >= 0,
        jp.len() == ip.len() + n,
        be16_at(jp, 2) == be16_at(ip, 2) + n,
        forall|i: int| 0 <= i < 20 && i != 2 && i != 3 ==> ip[i] == #[trigger] jp[i],
    ensures
        ipv4_in(jp) == Some(
            IpView {
                l4: jp.skip((ip[0] % 16) * 4),
                l4_len: ipv4_in(ip)->Some_0.l4_len + n,
                ..ipv4_in(ip)->Some_0
            },
        ),
{
    assert(jp[0] == ip[0] && jp[6] == ip[6] && jp[7] == ip[7] && jp[9] == ip[9]);
    assert(be16_at(jp, 6) == be16_at(ip, 6));
    assert(jp[12] == ip[12] && jp[13] == ip[13] && jp[14] == ip[14] && jp[15] == ip[15]);
    assert(jp[16] == ip[16] && jp[17] == ip[17] && jp[18] == ip[18] && jp[19] == ip[19]);
}

/// Tags are skipped alike in frames that are alike up to where the tags end.
proof fn lemma_tags_alike(f: Seq<u8>, g: Seq<u8>, ethertype: int, o: int, e: int, off: int)
    requires
        0 <= o,
        behind_tags(f, ethertype, o) == Some((e, off)),
        off <= f.len() || off == o,
        off <= g.len() || off == o,
        forall|i: int| 0 <= i < off ==> f[i] == #[trigger] g[i],
    ensures
        behind_tags(g, ethertype, o) == Some((e, off)),
        o <= off,
    decreases f.len() - o,
{
    if ethertype == ETHERTYPE_VLAN || ethertype == ETHERTYPE_QINQ {
        lemma_tags_reach(f, be16_at(f, o + 2), o + 4);
        assert(f[o + 2] == g[o + 2]);
        assert(f[o + 3] == g[o + 3]);
        lemma_tags_alike(f, g, be16_at(f, o + 2), o + 4, e, off);
    }
}

proof fn lemma_tags_reach(f: Seq<u8>, ethertype: int, o: int)
    requires
        o <= f.len(),
    ensures
        behind_tags(f, ethertype, o) matches Some((e, off)) ==> o <= off <= f.len(),
    decreases f.len() - o,
{
    if (ethertype == ETHERTYPE_VLAN || ethertype == ETHERTYPE_QINQ) && f.len() >= o + 4 {
        lemma_tags_reach(f, be16_at(f, o + 2), o + 4);
    }
}

/// Inserting past the tags changes nothing about them.
proof fn lemma_inserted_behind_tags(frame: Seq<u8>, g: Seq<u8>, e: int, off: int)
    requires
        14 <= frame.len(),
        behind_tags(frame, be16_at(frame, 12), 14) == Some((e, off)),
        off <= g.len(),
        forall|i: int| 0 <= i < off ==> frame[i] == #[trigger] g[i],
    ensures
        14 <= off <= frame.len(),
        behind_tags(g, be16_at(g, 12), 14) == Some((e, off)),
        frame.subrange(0, 6) == g.subrange(0, 6),
        frame.subrange(6, 12) == g.subrange(6, 12),
{
    lemma_tags_reach(frame, be16_at(frame, 12), 14);
    assert(frame[12] == g[12]);
    assert(frame[13] == g[13]);
    lemma_tags_alike(frame, g, be16_at(frame, 12), 14, e, off);
    assert(frame.subrange(0, 6) =~= g.subrange(0, 6));
    assert(frame.subrange(6, 12) =~= g.subrange(6, 12));
}

/// Options in front of the payload, with the data offset and the length raised to
/// match, do not change the segment.
proof fn lemma_tcp_with_options(frame: Seq<u8>, g: Seq<u8>, a: IpView, b: IpView, n: int)
    requires
        n % 4 == 0,
        n >= 0,
        tcp_in(frame, a) is Some,
        a.src == b.src,
        a.dst == b.dst,
        frame.subrange(0, 6) == g.subrange(0, 6),
        frame.subrange(6, 12) == g.subrange(6, 12),
        b.l4.len() == a.l4.len() + n,
        b.l4_len == a.l4_len + n,
        b.l4[12] == a.l4[12] + 4 * n,
        forall|i: int| 0 <= i < 20 && i != 12 ==> a.l4[i] == #[trigger] b.l4[i],
        forall|i: int| 20 <= i < a.l4.len() ==> a.l4[i] == #[trigger] b.l4[i + n],
    ensures
        tcp_in(g, b) == tcp_in(frame, a),
{
    let off = (a.l4[12] / 16) * 4;
    let end = if a.l4_len < a.l4.len() {
        a.l4_len
    } else {
        a.l4.len() as int
    };
    assert((b.l4[12] / 16) * 4 == off + n);
    let p = a.l4.subrange(off, end);
    let q = b.l4.subrange(off + n, end + n);
    assert forall|i: int| 0 <= i < p.len() implies p[i] == #[trigger] q[i] by {
        assert(a.l4[off + i] == b.l4[(off + i) + n]);
    }
    assert(p =~= q);
    assert(forall|i: int| 0 <= i < 12 ==> a.l4[i] == #[trigger] b.l4[i]);
    assert(a.l4[13] == b.l4[13]);
    assert(be16_at(a.l4, 0) == be16_at(b.l4, 0));
    assert(be16_at(a.l4, 2) == be16_at(b.l4, 2));
    assert(be32_at(a.l4, 4) == be32_at(b.l4, 4));
    assert(be32_at(a.l4, 8) == be32_at(b.l4, 8));
}

/// TCP options are no payload, over IPv4: putting any whole words of them, up to ten
/// in all, behind the fixed header of a TCP segment that lies at `tcp` leaves the
/// parsed segment, payload and all, as it was. The data offset and the length in the
/// IP header, which starts at `off`, have to say so, and there has to be room.
pub proof fn law_tcp_options_are_no_payload_v4(frame: Seq<u8>, off: int, opts: Seq<u8>)
    requires
        segment_in(frame) is Some,
        behind_tags(frame, be16_at(frame, 12), 14) == Some((0x0800int, off)),
        opts.len() % 4 == 0,
        ({
            let tcp = off + (frame[off] % 16) * 4;
            &&& frame[tcp + 12] / 16 + opts.len() / 4 <= 15
            &&& be16_at(frame, off + 2) + opts.len() <= 65535
        }),
    ensures
        ({
            let tcp = off + (frame[off] % 16) * 4;
            segment_in(with_inserted(frame, tcp + 20, opts, off + 2, tcp + 12, 16)) == segment_in(
                frame,
            )
        }),
{
    let tcp = off + (frame[off] % 16) * 4;
    let n = opts.len() as int;
    lemma_tags_reach(frame, be16_at(frame, 12), 14);
    lemma_segment_lies(frame, 0x0800, off);
    let ip = frame.skip(off);
    lemma_v4_bounds(frame, off);
    let g = with_inserted(frame, tcp + 20, opts, off + 2, tcp + 12, 16);
    lemma_inserted_layout(frame, tcp + 20, opts, off + 2, tcp + 12, 16);
    lemma_inserted_behind_tags(frame, g, 0x0800, off);
    lemma_segment_lies(g, 0x0800, off);
    let jp = g.skip(off);
    assert(be16_at(jp, 2) == be16_at(ip, 2) + n);
    assert forall|i: int| 0 <= i < 20 && i != 2 && i != 3 implies ip[i] == #[trigger] jp[i] by {
        assert(frame[off + i] == g[off + i]);
    }
    lemma_ipv4_longer(ip, jp, n);
    let a = ipv4_in(ip)->Some_0;
    let b = ipv4_in(jp)->Some_0;
    lemma_words_behind(frame, g, a.l4, b.l4, tcp, off, n);
    lemma_tcp_with_options(frame, g, a, b, n);
}

/// What a packet with a segment in it has room for.
proof fn lemma_v4_bounds(frame: Seq<u8>, off: int)
    requires
        0 <= off <= frame.len(),
        segment_behind(frame, 0x0800, off) is Some,
    ensures
        ({
            let tcp = off + (frame[off] % 16) * 4;
            &&& ipv4_in(frame.skip(off)) is Some
            &&& tcp_in(frame, ipv4_in(frame.skip(off))->Some_0) == segment_behind(
                frame,
                0x0800,
                off,
            )
            &&& off + 20 <= tcp <= tcp + 20 <= frame.len()
            &&& ipv4_in(frame.skip(off))->Some_0.l4 == frame.skip(off).skip(tcp - off)
            &&& be16_at(frame.skip(off), 2) == be16_at(frame, off + 2)
            &&& frame.skip(off)[0] == frame[off]
        }),
{
    let ip = frame.skip(off);
    let a = ipv4_in(ip)->Some_0;
    assert(ip.len() >= 20);
    assert(ip[0] == frame[off]);
    assert(a.l4.len() >= 20);
}

/// The words behind an IP header that ends at `tcp`, once `n` bytes were put in
/// behind the first twenty.
proof fn lemma_words_behind(
    frame: Seq<u8>,
    g: Seq<u8>,
    a: Seq<u8>,
    b: Seq<u8>,
    tcp: int,
    off: int,
    n: int,
)
    requires
        0 <= off <= tcp <= tcp + 20 <= frame.len(),
        n >= 0,
        n % 4 == 0,
        g.len() == frame.len() + n,
        a == frame.skip(off).skip(tcp - off),
        b == g.skip(off).skip(tcp - off),
        g[tcp + 12] == frame[tcp + 12] + 16 * (n / 4),
        forall|i: int| tcp <= i < tcp + 20 && i != tcp + 12 ==> frame[i] == #[trigger] g[i],
        forall|i: int|
            #![trigger frame[i]]
            tcp + 20 <= i < frame.len() ==> frame[i] == g[i + n],
    ensures
        b.len() == a.len() + n,
        b[12] == a[12] + 4 * n,
        forall|i: int| 0 <= i < 20 && i != 12 ==> a[i] == #[trigger] b[i],
        forall|i: int| 20 <= i < a.len() ==> a[i] == #[trigger] b[i + n],
{
    assert forall|i: int| 0 <= i < 20 && i != 12 implies a[i] == #[trigger] b[i] by {
        assert(frame[tcp + i] == g[tcp + i]);
    }
    assert forall|i: int| 20 <= i < a.len() implies a[i] == #[trigger] b[i + n] by {
        assert(frame[tcp + i] == g[tcp + i + n]);
    }
}

/// Extension headers are walked alike in packets that are alike up to the TCP
/// header; what is left of the length grows with it.
proof fn lemma_extensions_alike(
    f: Seq<u8>,
    g: Seq<u8>,
    next: u8,
    o: int,
    left: nat,
    cur: int,
    rest: nat,
    n: nat,
)
    requires
        0 <= o,
        behind_extensions(f, next, o, left) == Some((cur, rest)),
        cur <= f.len(),
        cur <= g.len(),
        forall|i: int| 40 <= i < cur ==> f[i] == #[trigger] g[i],
        40 <= o,
    ensures
        behind_extensions(g, next, o, left + n) == Some((cur, rest + n)),
        o <= cur,
    decreases left,
{
    if next != 6 {
        let len = (f[o + 1] + 1) * 8;
        lemma_extensions_reach(f, f[o], o + len, (left - len) as nat);
        assert(f[o] == g[o]);
        assert(f[o + 1] == g[o + 1]);
        lemma_extensions_alike(f, g, f[o], o + len, (left - len) as nat, cur, rest, n);
    }
}

proof fn lemma_extensions_reach(f: Seq<u8>, next: u8, o: int, left: nat)
    ensures
        behind_extensions(f, next, o, left) matches Some((cur, rest)) ==> o <= cur,
    decreases left,
{
    if next == 0 || next == 43 || next == 60 || next == 135 {
        if o + 2 <= f.len() {
            let len = (f[o + 1] + 1) * 8;
            if len <= left {
                lemma_extensions_reach(f, f[o], o + len, (left - len) as nat);
            }
        }
    }
}

/// The same over IPv6, whose header starts at `off`, with any extension headers, the
/// TCP header `cur` bytes on.
pub proof fn law_tcp_options_are_no_payload_v6(
    frame: Seq<u8>,
    off: int,
    cur: int,
    rest: nat,
    opts: Seq<u8>,
)
    requires
        segment_in(frame) is Some,
        behind_tags(frame, be16_at(frame, 12), 14) == Some((0x86ddint, off)),
        behind_extensions(
            frame.skip(off),
            frame[off + 6],
            40,
            be16_at(frame, off + 4) as nat,
        ) == Some((cur, rest)),
        opts.len() % 4 == 0,
        frame[off + cur + 12] / 16 + opts.len() / 4 <= 15,
        be16_at(frame, off + 4) + opts.len() <= 65535,
    ensures
        segment_in(
            with_inserted(frame, off + cur + 20, opts, off + 4, off + cur + 12, 16),
        ) == segment_in(frame),
{
    let tcp = off + cur;
    let n = opts.len() as int;
    lemma_tags_reach(frame, be16_at(frame, 12), 14);
    lemma_segment_lies(frame, 0x86dd, off);
    let ip = frame.skip(off);
    lemma_v6_bounds(frame, off, cur, rest);
    let g = with_inserted(frame, tcp + 20, opts, off + 4, tcp + 12, 16);
    lemma_inserted_layout(frame, tcp + 20, opts, off + 4, tcp + 12, 16);
    lemma_inserted_behind_tags(frame, g, 0x86dd, off);
    lemma_segment_lies(g, 0x86dd, off);
    let jp = g.skip(off);
    assert(be16_at(jp, 4) == be16_at(ip, 4) + n);
    assert forall|i: int| 0 <= i < cur && i != 4 && i != 5 implies ip[i] == #[trigger] jp[i] by {
        assert(frame[off + i] == g[off + i]);
    }
    lemma_ipv6_longer(ip, jp, cur, rest, n);
    let a = ipv6_in(ip)->Some_0;
    let b = ipv6_in(jp)->Some_0;
    lemma_words_behind(frame, g, a.l4, b.l4, tcp, off, n);
    lemma_tcp_with_options(frame, g, a, b, n);
}

proof fn lemma_v6_bounds(frame: Seq<u8>, off: int, cur: int, rest: nat)
    requires
        0 <= off <= frame.len(),
        segment_behind(frame, 0x86dd, off) is Some,
        behind_extensions(
            frame.skip(off),
            frame[off + 6],
            40,
            be16_at(frame, off + 4) as nat,
        ) == Some((cur, rest)),
    ensures
        ipv6_in(frame.skip(off)) is Some,
        tcp_in(frame, ipv6_in(frame.skip(off))->Some_0) == segment_behind(frame, 0x86dd, off),
        40 <= cur,
        off + cur + 20 <= frame.len(),
        ipv6_in(frame.skip(off))->Some_0.l4 == frame.skip(off).skip(cur),
        be16_at(frame.skip(off), 4) == be16_at(frame, off + 4),
        frame.skip(off)[6] == frame[off + 6],
{
    let ip = frame.skip(off);
    let a = ipv6_in(ip)->Some_0;
    assert(ip.len() >= 40);
    assert(ip[6] == frame[off + 6]);
    lemma_extensions_reach(ip, ip[6], 40, be16_at(ip, 4) as nat);
    assert(a.l4.len() >= 20);
}

/// Two IPv6 packets of which the second has `n` more bytes behind the headers.
proof fn lemma_ipv6_longer(ip: Seq<u8>, jp: Seq<u8>, cur: int, rest: nat, n: int)
    requires
        ipv6_in(ip) is Some,
        behind_extensions(ip, ip[6], 40, be16_at(ip, 4) as nat) == Some((cur, rest)),
        40 <= cur,
        n >= 0,
        jp.len() == ip.len() + n,
        be16_at(jp, 4) == be16_at(ip, 4) + n,
        forall|i: int| 0 <= i < cur && i != 4 && i != 5 ==> ip[i] == #[trigger] jp[i],
    ensures
        ipv6_in(jp) == Some(
            IpView {
                l4: jp.skip(cur),
                l4_len: ipv6_in(ip)->Some_0.l4_len + n,
                ..ipv6_in(ip)->Some_0
            },
        ),
{
    assert(jp[0] == ip[0] && jp[6] == ip[6]);
    lemma_ipv6_at_alike(ip, jp, 8);
    lemma_ipv6_at_alike(ip, jp, 24);
    lemma_extensions_alike(ip, jp, ip[6], 40, be16_at(ip, 4) as nat, cur, rest, n as nat);
}

proof fn lemma_ipv6_at_alike(ip: Seq<u8>, jp: Seq<u8>, o: int)
    requires
        8 <= o <= 24,
        forall|i: int| 8 <= i < 40 ==> ip[i] == #[trigger] jp[i],
    ensures
        ipv6_at(jp, o) == ipv6_at(ip, o),
{
    assert(jp[o] == ip[o] && jp[o + 1] == ip[o + 1] && jp[o + 2] == ip[o + 2] && jp[o + 3]
        == ip[o + 3]);
    assert(jp[o + 4] == ip[o + 4] && jp[o + 5] == ip[o + 5] && jp[o + 6] == ip[o + 6] && jp[o + 7]
        == ip[o + 7]);
    assert(jp[o + 8] == ip[o + 8] && jp[o + 9] == ip[o + 9] && jp[o + 10] == ip[o + 10] && jp[o
        + 11] == ip[o + 11]);
    assert(jp[o + 12] == ip[o + 12] && jp[o + 13] == ip[o + 13] && jp[o + 14] == ip[o + 14]
        && jp[o + 15] == ip[o + 15]);
}

/// IPv4 options are neither TCP header nor payload: putting any whole words of them
/// behind the fixed IP header, with the header length and the total length raised to
/// match, leaves the parsed segment as it was.
pub proof fn law_ip_options_are_skipped(frame: Seq<u8>, off: int, opts: Seq<u8>)
    requires
        segment_in(frame) is Some,
        behind_tags(frame, be16_at(frame, 12), 14) == Some((0x0800int, off)),
        opts.len() % 4 == 0,
        frame[off] % 16 + opts.len() / 4 <= 15,
        be16_at(frame, off + 2) + opts.len() <= 65535,
    ensures
        segment_in(with_inserted(frame, off + 20, opts, off + 2, off, 1)) == segment_in(frame),
{
    let n = opts.len() as int;
    let ihl = (frame[off] % 16) * 4;
    lemma_tags_reach(frame, be16_at(frame, 12), 14);
    lemma_segment_lies(frame, 0x0800, off);
    lemma_v4_bounds(frame, off);
    let ip = frame.skip(off);
    let g = with_inserted(frame, off + 20, opts, off + 2, off, 1);
    lemma_inserted_layout(frame, off + 20, opts, off + 2, off, 1);
    lemma_inserted_behind_tags(frame, g, 0x0800, off);
    lemma_segment_lies(g, 0x0800, off);
    let jp = g.skip(off);
    assert(jp[0] == ip[0] + n / 4);
    assert(be16_at(jp, 2) == be16_at(ip, 2) + n);
    assert forall|i: int| 4 <= i < 20 implies ip[i] == #[trigger] jp[i] by {
        assert(frame[off + i] == g[off + i]);
    }
    assert forall|i: int| ihl <= i < ip.len() implies ip[i] == #[trigger] jp[i + n] by {
        assert(frame[off + i] == g[off + i + n]);
    }
    lemma_ipv4_optioned(ip, jp, n);
}

/// Two IPv4 packets of which the second has `n` more bytes of options.
proof fn lemma_ipv4_optioned(ip: Seq<u8>, jp: Seq<u8>, n: int)
    requires
        ipv4_in(ip) is Some,
        n >= 0,
        n % 4 == 0,
        jp.len() == ip.len() + n,
        ip[0] % 16 + n / 4 <= 15,
        jp[0] == ip[0] + n / 4,
        be16_at(jp, 2) == be16_at(ip, 2) + n,
        forall|i: int| 4 <= i < 20 ==> ip[i] == #[trigger] jp[i],
        forall|i: int| (ip[0] % 16) * 4 <= i < ip.len() ==> ip[i] == #[trigger] jp[i + n],
    ensures
        ipv4_in(jp) == ipv4_in(ip),
{
    let ihl = (ip[0] % 16) * 4;
    assert(jp[0] / 16 == 4 && (jp[0] % 16) * 4 == ihl + n);
    assert(jp[6] == ip[6] && jp[7] == ip[7] && jp[9] == ip[9]);
    assert(be16_at(jp, 6) == be16_at(ip, 6));
    assert(jp[12] == ip[12] && jp[13] == ip[13] && jp[14] == ip[14] && jp[15] == ip[15]);
    assert(jp[16] == ip[16] && jp[17] == ip[17] && jp[18] == ip[18] && jp[19] == ip[19]);
    let a = ip.skip(ihl);
    let b = jp.skip(ihl + n);
    assert forall|i: int| 0 <= i < a.len() implies a[i] == #[trigger] b[i] by {
        assert(ip[ihl + i] == jp[(ihl + i) + n]);
    }
    assert(a =~= b);
}

/// Every field of a segment is read off its place: the addresses and the total
/// length where IPv4 has them, and behind the header, whose length is in its first
/// byte, the ports, the two numbers and the flags where TCP has them, most
/// significant byte first. The payload is what lies between the end of the TCP
/// header, as its data offset gives it, and the end of the packet, as the total
/// length gives it, or of the frame.
pub proof fn law_ipv4_fields_are_in_place(frame: Seq<u8>)
    requires
        segment_in(frame) is Some,
        frame[12] == 0x08,
        frame[13] == 0x00,
    ensures
        ({
            let s = segment_in(frame)->Some_0;
            let t = 14 + (frame[14] % 16) * 4;
            let end = 14 + frame[16] * 256 + frame[17];
            &&& forall|i: int| 0 <= i < 6 ==> #[trigger] s.eth_dst[i] == frame[i]
            &&& forall|i: int| 0 <= i < 6 ==> #[trigger] s.eth_src[i] == frame[6 + i]
            &&& s.src_ip == IpAddr::V4(
                (frame[26] * 16777216 + frame[27] * 65536 + frame[28] * 256 + frame[29]) as u32,
            )
            &&& s.dst_ip == IpAddr::V4(
                (frame[30] * 16777216 + frame[31] * 65536 + frame[32] * 256 + frame[33]) as u32,
            )
            &&& s.src_port == frame[t] * 256 + frame[t + 1]
            &&& s.dst_port == frame[t + 2] * 256 + frame[t + 3]
            &&& s.seq == frame[t + 4] * 16777216 + frame[t + 5] * 65536 + frame[t + 6] * 256
                + frame[t + 7]
            &&& s.ack == frame[t + 8] * 16777216 + frame[t + 9] * 65536 + frame[t + 10] * 256
                + frame[t + 11]
            &&& s.flags == frame[t + 13]
            &&& s.payload == frame.subrange(
                t + (frame[t + 12] / 16) * 4,
                if end < frame.len() {
                    end
                } else {
                    frame.len() as int
                },
            )
        }),
{
    let ip = frame.skip(14);
    let a = ipv4_in(ip)->Some_0;
    let t = 14 + (frame[14] % 16) * 4;
    assert(be16_at(frame, 12) == 0x0800);
    assert(ip[0] == frame[14]);
    assert(a.l4 =~= frame.skip(t));
    assert(forall|i: int| 0 <= i < ip.len() ==> #[trigger] ip[i] == frame[14 + i]);
    assert(forall|i: int| 0 <= i < a.l4.len() ==> #[trigger] a.l4[i] == frame[t + i]);
    let end = 14 + frame[16] * 256 + frame[17];
    let stop = if end < frame.len() {
        end
    } else {
        frame.len() as int
    };
    assert(segment_in(frame)->Some_0.payload =~= frame.subrange(
        t + (frame[t + 12] / 16) * 4,
        stop,
    ));
}

/// A fragment is never taken for a segment: over IPv4 where it is not the first or
/// not the last, over IPv6 where there is a fragment header.
pub proof fn law_fragments_are_refused(frame: Seq<u8>)
    requires
        frame.len() >= 54,
    ensures
        frame[12] == 0x08 && frame[13] == 0x00 && (frame[20] % 64 != 0 || frame[21] != 0)
            ==> segment_in(frame) is None,
        frame[12] == 0x86 && frame[13] == 0xdd && frame[20] == 44 ==> segment_in(frame) is None,
        frame[12] == 0x08 && frame[13] == 0x00 && frame[23] != 6 ==> segment_in(frame) is None,
{
    let ip = frame.skip(14);
    assert(ip[6] == frame[20] && ip[7] == frame[21] && ip[9] == frame[23]);
    if frame[12] == 0x08 && frame[13] == 0x00 {
        assert(be16_at(frame, 12) == 0x0800);
        if frame[20] % 64 != 0 || frame[21] != 0 {
            assert(be16_at(ip, 6) % 0x4000 != 0);
        }
    }
    if frame[12] == 0x86 && frame[13] == 0xdd {
        assert(be16_at(frame, 12) == 0x86dd);
    }
}

} // verus!
