//! Network addresses and how they are written.
//!
//! An address is plain numbers here: the big-endian 32-bit words of its bytes.
//! The text forms are the customary ones, RFC 5952 for IPv6.
use vstd::prelude::*;
use vstd::string::*;

use crate::bytes::{be32_bytes, push_be32};
use crate::text::{decimal, digit_char, push_decimal};

pub mod laws;

verus! {

/// An IP address.
#[derive(Debug, Clone, Copy, PartialEq, Eq, Structural)]
pub enum IpAddr {
    /// The four bytes as one number.
    V4(u32),
    /// The sixteen bytes as four numbers.
    V6(u32, u32, u32, u32),
}

/// An IP address and a port.
#[derive(Debug, Clone, Copy, PartialEq, Eq, Structural)]
pub struct SocketAddr {
    pub ip: IpAddr,
    pub port: u16,
}

/// The bytes of an address.
pub open spec fn ip_bytes(ip: IpAddr) -> Seq<u8> {
    match ip {
        IpAddr::V4(a) => be32_bytes(a),
        IpAddr::V6(a, b, c, d) => be32_bytes(a) + be32_bytes(b) + be32_bytes(c) + be32_bytes(d),
    }
}

/// The order of addresses: IPv4 before IPv6, then by the numbers.
pub open spec fn ip_le(x: IpAddr, y: IpAddr) -> bool {
    match (x, y) {
        (IpAddr::V4(a), IpAddr::V4(b)) => a <= b,
        (IpAddr::V4(_), IpAddr::V6(_, _, _, _)) => true,
        (IpAddr::V6(_, _, _, _), IpAddr::V4(_)) => false,
        (IpAddr::V6(a, b, c, d), IpAddr::V6(e, f, g, h)) => if a != e {
            a < e
        } else if b != f {
            b < f
        } else if c != g {
            c < g
        } else {
            d <= h
        },
    }
}

/// The order of socket addresses: by address, then by port.
pub open spec fn addr_le(x: SocketAddr, y: SocketAddr) -> bool {
    if x.ip != y.ip {
        ip_le(x.ip, y.ip)
    } else {
        x.port <= y.port
    }
}

/// The order is one: any two addresses are comparable, and only equal ones both
/// ways.
pub proof fn lemma_addr_order(x: SocketAddr, y: SocketAddr)
    ensures
        addr_le(x, y) || addr_le(y, x),
        addr_le(x, y) && addr_le(y, x) ==> x == y,
{
}

/// The character of a hexadecimal digit.
pub open spec fn hex_char(d: int) -> char {
    if d < 10 {
        digit_char(d)
    } else if d == 10 {
        'a'
    } else if d == 11 {
        'b'
    } else if d == 12 {
        'c'
    } else if d == 13 {
        'd'
    } else if d == 14 {
        'e'
    } else {
        'f'
    }
}

/// `n` written in hexadecimal, without leading zeros.
pub open spec fn hexadecimal(n: nat) -> Seq<char>
    decreases n,
{
    if n < 16 {
        seq![hex_char(n as int)]
    } else {
        hexadecimal(n / 16).push(hex_char((n % 16) as int))
    }
}

/// Appends one hexadecimal digit.
pub fn push_hex_digit(out: &mut String, d: u8)
    requires
        d < 16,
    ensures
        final(out)@ == old(out)@.push(hex_char(d as int)),
{
    if d < 10 {
        push_decimal(out, d as u64);
        assert(out@ =~= old(out)@.push(hex_char(d as int)));
        return;
    }
    proof {
        reveal_strlit("a");
        reveal_strlit("b");
        reveal_strlit("c");
        reveal_strlit("d");
        reveal_strlit("e");
        reveal_strlit("f");
    }
    let s: &str = if d == 10 {
        "a"
    } else if d == 11 {
        "b"
    } else if d == 12 {
        "c"
    } else if d == 13 {
        "d"
    } else if d == 14 {
        "e"
    } else {
        "f"
    };
    out.append(s);
    assert(out@ =~= old(out)@.push(hex_char(d as int)));
}

/// Appends `n` in hexadecimal.
fn push_hex(out: &mut String, n: u16)
    ensures
        final(out)@ == old(out)@ + hexadecimal(n as nat),
    decreases n,
{
    if n >= 16 {
        push_hex(out, n / 16);
    }
    push_hex_digit(out, (n % 16) as u8);
    assert(out@ =~= old(out)@ + hexadecimal(n as nat));
}

/// An IPv4 address in text: four decimal numbers with dots between them.
pub open spec fn ipv4_text(a: u32) -> Seq<char> {
    decimal((a / 16777216) as nat) + "."@ + decimal(((a / 65536) % 256) as nat) + "."@ + decimal(
        ((a / 256) % 256) as nat,
    ) + "."@ + decimal((a % 256) as nat)
}

fn push_ipv4(out: &mut String, a: u32)
    ensures
        final(out)@ == old(out)@ + ipv4_text(a),
{
    push_decimal(out, (a / 16777216) as u64);
    out.append(".");
    push_decimal(out, ((a / 65536) % 256) as u64);
    out.append(".");
    push_decimal(out, ((a / 256) % 256) as u64);
    out.append(".");
    push_decimal(out, (a % 256) as u64);
    assert(out@ =~= old(out)@ + ipv4_text(a));
}

/// The eight 16-bit groups of an IPv6 address.
pub open spec fn groups(a: u32, b: u32, c: u32, d: u32) -> Seq<u16> {
    seq![
        (a / 65536) as u16,
        (a % 65536) as u16,
        (b / 65536) as u16,
        (b % 65536) as u16,
        (c / 65536) as u16,
        (c % 65536) as u16,
        (d / 65536) as u16,
        (d % 65536) as u16,
    ]
}

/// How many groups are zero from `i` on, without a break.
pub open spec fn zeros_at(g: Seq<u16>, i: int) -> nat
    decreases g.len() - i,
{
    if i < 0 || i >= g.len() || g[i] != 0 {
        0
    } else {
        1 + zeros_at(g, i + 1)
    }
}

/// The longest run of zero groups from `i` on, the first of equally long ones:
/// where it starts and how long it is.
pub open spec fn longest_zeros(g: Seq<u16>, i: int) -> (int, nat)
    decreases g.len() - i,
{
    if i < 0 || i >= g.len() {
        (g.len() as int, 0)
    } else {
        let later = longest_zeros(g, i + 1);
        if zeros_at(g, i) > 0 && zeros_at(g, i) >= later.1 {
            (i, zeros_at(g, i))
        } else {
            later
        }
    }
}

/// The groups from `i` up to `j` in hexadecimal, with colons between them.
pub open spec fn groups_text(g: Seq<u16>, i: int, j: int) -> Seq<char>
    decreases j - i,
{
    if i >= j {
        Seq::empty()
    } else if i + 1 == j {
        hexadecimal(g[i] as nat)
    } else {
        groups_text(g, i, j - 1) + ":"@ + hexadecimal(g[j - 1] as nat)
    }
}

/// An IPv6 address in text: the longest run of two or more zero groups is left
/// out, and an IPv4-mapped address ends in the IPv4 form.
pub open spec fn ipv6_text(a: u32, b: u32, c: u32, d: u32) -> Seq<char> {
    if a == 0 && b == 0 && c == 0xffff {
        "::ffff:"@ + ipv4_text(d)
    } else {
        let g = groups(a, b, c, d);
        let (start, len) = longest_zeros(g, 0);
        if len > 1 {
            groups_text(g, 0, start) + "::"@ + groups_text(g, start + len, 8)
        } else {
            groups_text(g, 0, 8)
        }
    }
}

fn push_groups(out: &mut String, g: &[u16], i: usize, j: usize)
    requires
        j <= g@.len(),
    ensures
        final(out)@ == old(out)@ + groups_text(g@, i as int, j as int),
{
    let mut k: usize = i;
    assert(out@ =~= old(out)@ + groups_text(g@, i as int, i as int));
    while k < j
        invariant
            i <= k <= j || (k == i && i > j),
            j <= g@.len(),
            out@ == old(out)@ + groups_text(g@, i as int, k as int),
        decreases j - k,
    {
        let ghost before = out@;
        if k > i {
            out.append(":");
        }
        push_hex(out, g[k]);
        assert(out@ =~= old(out)@ + groups_text(g@, i as int, k + 1));
        k += 1;
    }
    assert(out@ =~= old(out)@ + groups_text(g@, i as int, j as int));
}

/// The longest run of zero groups.
fn find_zeros(g: &[u16]) -> (r: (usize, usize))
    requires
        g@.len() == 8,
    ensures
        (r.0 as int, r.1 as nat) == longest_zeros(g@, 0),
        r.0 + r.1 <= 8,
{
    let mut i: usize = 8;
    let mut run: usize = 0;
    let mut best: (usize, usize) = (8, 0);
    while i > 0
        invariant
            i <= 8,
            g@.len() == 8,
            run == zeros_at(g@, i as int),
            i + run <= 8,
            (best.0 as int, best.1 as nat) == longest_zeros(g@, i as int),
            best.0 + best.1 <= 8,
        decreases i,
    {
        i -= 1;
        if g[i] == 0 {
            run += 1;
        } else {
            run = 0;
        }
        if run > 0 && run >= best.1 {
            best = (i, run);
        }
    }
    best
}

fn push_ipv6(out: &mut String, a: u32, b: u32, c: u32, d: u32)
    ensures
        final(out)@ == old(out)@ + ipv6_text(a, b, c, d),
{
    if a == 0 && b == 0 && c == 0xffff {
        out.append("::ffff:");
        push_ipv4(out, d);
        assert(out@ =~= old(out)@ + ipv6_text(a, b, c, d));
        return;
    }
    let g: [u16; 8] = [
        (a / 65536) as u16,
        (a % 65536) as u16,
        (b / 65536) as u16,
        (b % 65536) as u16,
        (c / 65536) as u16,
        (c % 65536) as u16,
        (d / 65536) as u16,
        (d % 65536) as u16,
    ];
    assert(g@ =~= groups(a, b, c, d));
    let (start, len) = find_zeros(&g);
    if len > 1 {
        push_groups(out, &g, 0, start);
        out.append("::");
        push_groups(out, &g, start + len, 8);
    } else {
        push_groups(out, &g, 0, 8);
    }
    assert(out@ =~= old(out)@ + ipv6_text(a, b, c, d));
}

/// A socket address in text. An IPv6 address stands in brackets.
pub open spec fn addr_text(a: SocketAddr) -> Seq<char> {
    match a.ip {
        IpAddr::V4(x) => ipv4_text(x) + ":"@ + decimal(a.port as nat),
        IpAddr::V6(x, y, z, w) => "["@ + ipv6_text(x, y, z, w) + "]:"@ + decimal(a.port as nat),
    }
}

/// The bytes that a number is made of can be read off it.
proof fn lemma_bytes_of_sum(x: u32, a: u8, b: u8, c: u8, d: u8)
    requires
        x == a * 16777216 + b * 65536 + c * 256 + d,
    ensures
        x / 16777216 == a,
        (x / 65536) % 256 == b,
        (x / 256) % 256 == c,
        x % 256 == d,
{
    assert(x / 16777216 == a) by {
        assert(b * 65536 + c * 256 + d < 16777216);
    }
    assert(x / 65536 == a * 256 + b) by {
        assert(c * 256 + d < 65536);
    }
    assert(x / 256 == a * 65536 + b * 256 + c);
}

impl IpAddr {
    /// The IPv4 address with these bytes.
    pub fn v4(a: u8, b: u8, c: u8, d: u8) -> (r: IpAddr)
        ensures
            r is V4,
            ip_bytes(r) == seq![a, b, c, d],
    {
        let x: u32 = (a as u32) * 16777216 + (b as u32) * 65536 + (c as u32) * 256 + d as u32;
        proof {
            lemma_bytes_of_sum(x, a, b, c, d);
        }
        assert(be32_bytes(x) =~= seq![a, b, c, d]);
        IpAddr::V4(x)
    }

    /// The IPv6 address with these groups.
    pub fn v6(g: [u16; 8]) -> (r: IpAddr)
        ensures
            r matches IpAddr::V6(a, b, c, d) && groups(a, b, c, d) == g@,
    {
        let a: u32 = (g[0] as u32) * 65536 + g[1] as u32;
        let b: u32 = (g[2] as u32) * 65536 + g[3] as u32;
        let c: u32 = (g[4] as u32) * 65536 + g[5] as u32;
        let d: u32 = (g[6] as u32) * 65536 + g[7] as u32;
        assert(groups(a, b, c, d) =~= g@);
        IpAddr::V6(a, b, c, d)
    }

    /// Appends the bytes of the address.
    pub fn write(&self, out: &mut Vec<u8>)
        ensures
            final(out)@ == old(out)@ + ip_bytes(*self),
    {
        match *self {
            IpAddr::V4(a) => push_be32(out, a),
            IpAddr::V6(a, b, c, d) => {
                push_be32(out, a);
                push_be32(out, b);
                push_be32(out, c);
                push_be32(out, d);
            },
        }
        assert(out@ =~= old(out)@ + ip_bytes(*self));
    }

    /// Whether this address does not come after the other.
    pub fn is_le(&self, other: &IpAddr) -> (r: bool)
        ensures
            r == ip_le(*self, *other),
    {
        match (*self, *other) {
            (IpAddr::V4(a), IpAddr::V4(b)) => a <= b,
            (IpAddr::V4(_), IpAddr::V6(_, _, _, _)) => true,
            (IpAddr::V6(_, _, _, _), IpAddr::V4(_)) => false,
            (IpAddr::V6(a, b, c, d), IpAddr::V6(e, f, g, h)) => {
                if a != e {
                    a < e
                } else if b != f {
                    b < f
                } else if c != g {
                    c < g
                } else {
                    d <= h
                }
            },
        }
    }
}

impl SocketAddr {
    /// The address `ip` with `port`.
    pub fn new(ip: IpAddr, port: u16) -> (r: SocketAddr)
        ensures
            r == (SocketAddr { ip, port }),
    {
        SocketAddr { ip, port }
    }

    /// Whether this address does not come after the other.
    pub fn is_le(&self, other: &SocketAddr) -> (r: bool)
        ensures
            r == addr_le(*self, *other),
    {
        if self.ip != other.ip {
            self.ip.is_le(&other.ip)
        } else {
            self.port <= other.port
        }
    }

    /// Appends the address in text.
    pub fn push_text(&self, out: &mut String)
        ensures
            final(out)@ == old(out)@ + addr_text(*self),
    {
        match self.ip {
            IpAddr::V4(a) => {
                push_ipv4(out, a);
                out.append(":");
            },
            IpAddr::V6(a, b, c, d) => {
                out.append("[");
                push_ipv6(out, a, b, c, d);
                out.append("]:");
            },
        }
        push_decimal(out, self.port as u64);
        assert(out@ =~= old(out)@ + addr_text(*self));
    }

    /// The address in text.
    pub fn text(&self) -> (r: String)
        ensures
            r@ == addr_text(*self),
    {
        let mut out: String = String::new();
        self.push_text(&mut out);
        assert(out@ =~= addr_text(*self));
        out
    }
}

} // verus!
