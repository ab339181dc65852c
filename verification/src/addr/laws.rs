//! Addresses in text can be told apart.
use vstd::prelude::*;

use crate::addr::{
    addr_text, groups, groups_text, hex_char, hexadecimal, ipv4_text, ipv6_text, longest_zeros,
    zeros_at, IpAddr, SocketAddr,
};
use crate::ports::laws::{all_digits, law_decimal_reads_back};
use crate::text::decimal;

verus! {

/// Whether a character does not occur in a text.
pub open spec fn free_of(s: Seq<char>, c: char) -> bool {
    forall|i: int| 0 <= i < s.len() ==> #[trigger] s[i] != c
}

proof fn lemma_split_first(p: Seq<char>, x: Seq<char>, q: Seq<char>, y: Seq<char>, c: char)
    requires
        p + seq![c] + x == q + seq![c] + y,
        free_of(p, c),
        free_of(q, c),
    ensures
        p == q,
        x == y,
{
    let s = p + seq![c] + x;
    let t = q + seq![c] + y;
    assert(s[p.len() as int] == c && t[q.len() as int] == c);
    if p.len() < q.len() {
        assert(t[p.len() as int] == q[p.len() as int]);
    }
    if q.len() < p.len() {
        assert(s[q.len() as int] == p[q.len() as int]);
    }
    assert(s.take(p.len() as int) =~= p && t.take(q.len() as int) =~= q);
    assert(s.skip(p.len() as int + 1) =~= x && t.skip(q.len() as int + 1) =~= y);
}

proof fn lemma_split_last(p: Seq<char>, x: Seq<char>, q: Seq<char>, y: Seq<char>, c: char)
    requires
        p + seq![c] + x == q + seq![c] + y,
        free_of(x, c),
        free_of(y, c),
    ensures
        p == q,
        x == y,
{
    let s = p + seq![c] + x;
    let t = q + seq![c] + y;
    assert(s.len() == p.len() + 1 + x.len() && t.len() == q.len() + 1 + y.len());
    assert(s.len() == t.len());
    assert(s[p.len() as int] == c && t[q.len() as int] == c);
    if p.len() < q.len() {
        assert(s[q.len() as int] == x[q.len() - p.len() - 1]);
    }
    if q.len() < p.len() {
        assert(t[p.len() as int] == y[p.len() - q.len() - 1]);
    }
    assert(s.take(p.len() as int) =~= p && t.take(q.len() as int) =~= q);
    assert(s.skip(p.len() as int + 1) =~= x && t.skip(q.len() as int + 1) =~= y);
}

proof fn lemma_decimal_chars(n: nat)
    ensures
        all_digits(decimal(n)),
        free_of(decimal(n), '.'),
        free_of(decimal(n), ':'),
        free_of(decimal(n), ']'),
{
    law_decimal_reads_back(n);
}

proof fn lemma_decimal_differs(m: nat, n: nat)
    requires
        decimal(m) == decimal(n),
    ensures
        m == n,
{
    law_decimal_reads_back(m);
    law_decimal_reads_back(n);
}

/// An IPv4 address in text, with the dots taken from the front.
spec fn dotted(a: nat, b: nat, c: nat, d: nat) -> Seq<char> {
    decimal(a) + seq!['.'] + (decimal(b) + seq!['.'] + (decimal(c) + seq!['.'] + decimal(d)))
}

proof fn lemma_dotted(a: u32)
    ensures
        ipv4_text(a) == dotted(
            (a / 16777216) as nat,
            ((a / 65536) % 256) as nat,
            ((a / 256) % 256) as nat,
            (a % 256) as nat,
        ),
        ipv4_text(a).len() > 0,
        '0' <= ipv4_text(a)[0] <= '9',
        free_of(ipv4_text(a), ':'),
        free_of(ipv4_text(a), ']'),
        !free_of(ipv4_text(a), '.'),
{
    reveal_strlit(".");
    assert("."@ =~= seq!['.']);
    let w = (a / 16777216) as nat;
    let x = ((a / 65536) % 256) as nat;
    let y = ((a / 256) % 256) as nat;
    let z = (a % 256) as nat;
    assert(ipv4_text(a) =~= dotted(w, x, y, z));
    lemma_decimal_chars(w);
    lemma_decimal_chars(x);
    lemma_decimal_chars(y);
    lemma_decimal_chars(z);
    assert(ipv4_text(a)[0] == decimal(w)[0]);
    assert(ipv4_text(a)[decimal(w).len() as int] == '.');
}

/// Different IPv4 addresses have different texts.
pub proof fn law_ipv4_texts_differ(a: u32, b: u32)
    requires
        ipv4_text(a) == ipv4_text(b),
    ensures
        a == b,
{
    let (a1, a2, a3, a4) = (
        (a / 16777216) as nat,
        ((a / 65536) % 256) as nat,
        ((a / 256) % 256) as nat,
        (a % 256) as nat,
    );
    let (b1, b2, b3, b4) = (
        (b / 16777216) as nat,
        ((b / 65536) % 256) as nat,
        ((b / 256) % 256) as nat,
        (b % 256) as nat,
    );
    lemma_dotted(a);
    lemma_dotted(b);
    lemma_decimal_chars(a1);
    lemma_decimal_chars(a2);
    lemma_decimal_chars(a3);
    lemma_decimal_chars(b1);
    lemma_decimal_chars(b2);
    lemma_decimal_chars(b3);
    let a34 = decimal(a3) + seq!['.'] + decimal(a4);
    let b34 = decimal(b3) + seq!['.'] + decimal(b4);
    let a24 = decimal(a2) + seq!['.'] + a34;
    let b24 = decimal(b2) + seq!['.'] + b34;
    lemma_split_first(decimal(a1), a24, decimal(b1), b24, '.');
    lemma_split_first(decimal(a2), a34, decimal(b2), b34, '.');
    lemma_split_first(decimal(a3), decimal(a4), decimal(b3), decimal(b4), '.');
    lemma_decimal_differs(a1, b1);
    lemma_decimal_differs(a2, b2);
    lemma_decimal_differs(a3, b3);
    lemma_decimal_differs(a4, b4);
    assert(a == a1 * 16777216 + a2 * 65536 + a3 * 256 + a4);
    assert(b == b1 * 16777216 + b2 * 65536 + b3 * 256 + b4);
}

/// Whether a character is a hexadecimal digit.
pub open spec fn is_hex(c: char) -> bool {
    '0' <= c <= '9' || 'a' <= c <= 'f'
}

proof fn lemma_hex_chars(n: nat)
    ensures
        hexadecimal(n).len() > 0,
        forall|i: int| 0 <= i < hexadecimal(n).len() ==> is_hex(#[trigger] hexadecimal(n)[i]),
        free_of(hexadecimal(n), ':'),
    decreases n,
{
    let s = hexadecimal(n);
    if n >= 16 {
        lemma_hex_chars(n / 16);
        let t = hexadecimal(n / 16);
        assert(is_hex(hex_char((n % 16) as int)));
        assert forall|i: int| 0 <= i < s.len() implies is_hex(#[trigger] s[i]) by {
            if i < t.len() {
                assert(s[i] == t[i]);
            }
        }
    } else {
        assert(is_hex(hex_char(n as int)));
    }
}

/// Different numbers look different in hexadecimal.
pub proof fn law_hexadecimal_texts_differ(m: nat, n: nat)
    requires
        hexadecimal(m) == hexadecimal(n),
    ensures
        m == n,
    decreases m,
{
    assert(hexadecimal(m).last() == hex_char((m % 16) as int)) by {
        assert(m < 16 ==> m % 16 == m);
    }
    assert(hexadecimal(n).last() == hex_char((n % 16) as int)) by {
        assert(n < 16 ==> n % 16 == n);
    }
    assert(m % 16 == n % 16);
    lemma_hex_chars(m / 16);
    lemma_hex_chars(n / 16);
    if m >= 16 && n >= 16 {
        assert(hexadecimal(m).drop_last() =~= hexadecimal(m / 16));
        assert(hexadecimal(n).drop_last() =~= hexadecimal(n / 16));
        law_hexadecimal_texts_differ(m / 16, n / 16);
    }
}

/// Whether no two colons stand side by side.
spec fn single_colons(s: Seq<char>) -> bool {
    forall|i: int| 0 <= i < s.len() - 1 ==> !(#[trigger] s[i] == ':' && s[i + 1] == ':')
}

proof fn lemma_groups_chars(g: Seq<u16>, i: int, j: int)
    ensures
        ({
            let s = groups_text(g, i, j);
            &&& i < j <==> s.len() > 0
            &&& s.len() > 0 ==> s[0] != ':' && s.last() != ':'
            &&& single_colons(s)
            &&& forall|k: int| 0 <= k < s.len() ==> is_hex(#[trigger] s[k]) || s[k] == ':'
            &&& i + 1 == j ==> free_of(s, ':')
        }),
    decreases j - i,
{
    reveal_strlit(":");
    assert(":"@ =~= seq![':']);
    let s = groups_text(g, i, j);
    if i < j {
        lemma_hex_chars(g[j - 1] as nat);
        let x = hexadecimal(g[j - 1] as nat);
        if i + 1 < j {
            lemma_groups_chars(g, i, j - 1);
            let p = groups_text(g, i, j - 1);
            assert(s =~= p + seq![':'] + x);
            assert(s[0] == p[0]);
            assert(s.last() == x.last());
            assert forall|k: int| 0 <= k < s.len() implies is_hex(#[trigger] s[k]) || s[k]
                == ':' by {
                if k < p.len() {
                    assert(s[k] == p[k]);
                } else if k > p.len() {
                    assert(s[k] == x[k - p.len() - 1]);
                }
            }
            assert forall|k: int| 0 <= k < s.len() - 1 implies !(#[trigger] s[k] == ':' && s[k + 1]
                == ':') by {
                if k + 1 < p.len() {
                    assert(s[k] == p[k] && s[k + 1] == p[k + 1]);
                } else if k + 1 == p.len() {
                    assert(s[k] == p.last());
                } else {
                    assert(s[k + 1] == x[k - p.len()]);
                }
            }
        }
    }
}

proof fn lemma_groups_differ(g: Seq<u16>, i: int, j: int, h: Seq<u16>, u: int, v: int)
    requires
        i <= j,
        u <= v,
        groups_text(g, i, j) == groups_text(h, u, v),
    ensures
        j - i == v - u,
        forall|k: int| 0 <= k < j - i ==> #[trigger] g[i + k] == h[u + k],
    decreases j - i,
{
    reveal_strlit(":");
    assert(":"@ =~= seq![':']);
    let s = groups_text(g, i, j);
    let t = groups_text(h, u, v);
    lemma_groups_chars(g, i, j);
    lemma_groups_chars(h, u, v);
    if i < j {
        let x = hexadecimal(g[j - 1] as nat);
        let y = hexadecimal(h[v - 1] as nat);
        lemma_hex_chars(g[j - 1] as nat);
        lemma_hex_chars(h[v - 1] as nat);
        let p = groups_text(g, i, j - 1);
        let q = groups_text(h, u, v - 1);
        if i + 1 < j {
            assert(s =~= p + seq![':'] + x);
            assert(s[p.len() as int] == ':');
        }
        if u + 1 < v {
            assert(t =~= q + seq![':'] + y);
            assert(t[q.len() as int] == ':');
        }
        if i + 1 < j {
            assert(u + 1 < v);
            lemma_split_last(p, x, q, y, ':');
            lemma_groups_differ(g, i, j - 1, h, u, v - 1);
        } else {
            assert(u + 1 == v);
        }
        law_hexadecimal_texts_differ(g[j - 1] as nat, h[v - 1] as nat);
        assert forall|k: int| 0 <= k < j - i implies #[trigger] g[i + k] == h[u + k] by {
            if k == j - i - 1 {
                assert(i + k == j - 1 && u + k == v - 1);
            }
        }
    }
}

proof fn lemma_zeros_at(g: Seq<u16>, i: int)
    requires
        0 <= i <= g.len(),
    ensures
        i + zeros_at(g, i) <= g.len(),
        forall|k: int| i <= k < i + zeros_at(g, i) ==> #[trigger] g[k] == 0,
    decreases g.len() - i,
{
    if i < g.len() && g[i] == 0 {
        lemma_zeros_at(g, i + 1);
    }
}

proof fn lemma_longest_zeros(g: Seq<u16>, i: int)
    requires
        0 <= i <= g.len(),
    ensures
        ({
            let (start, len) = longest_zeros(g, i);
            &&& i <= start <= start + len <= g.len()
            &&& forall|k: int| start <= k < start + len ==> #[trigger] g[k] == 0
        }),
    decreases g.len() - i,
{
    if i < g.len() {
        lemma_longest_zeros(g, i + 1);
        lemma_zeros_at(g, i);
    }
}

/// Text with one gap in it: two colons between two parts that have none side by side.
spec fn gapped(p: Seq<char>, x: Seq<char>) -> Seq<char> {
    p + seq![':', ':'] + x
}

proof fn lemma_gap(p: Seq<char>, x: Seq<char>, q: Seq<char>, y: Seq<char>)
    requires
        gapped(p, x) == gapped(q, y),
        single_colons(p),
        single_colons(q),
        p.len() > 0 ==> p.last() != ':',
        q.len() > 0 ==> q.last() != ':',
    ensures
        p == q,
        x == y,
{
    let s = gapped(p, x);
    let t = gapped(q, y);
    let m = p.len() as int;
    let n = q.len() as int;
    assert(s[m] == ':' && s[m + 1] == ':' && t[n] == ':' && t[n + 1] == ':');
    if m < n {
        assert(t[m] == q[m]);
        if m + 1 < n {
            assert(t[m + 1] == q[m + 1]);
        }
    }
    if n < m {
        assert(s[n] == p[n]);
        if n + 1 < m {
            assert(s[n + 1] == p[n + 1]);
        }
    }
    assert(s.take(m) =~= p && t.take(n) =~= q);
    assert(s.skip(m + 2) =~= x && t.skip(n + 2) =~= y);
}

/// The text of an address that is not IPv4-mapped.
spec fn grouped(g: Seq<u16>) -> Seq<char> {
    let (start, len) = longest_zeros(g, 0);
    if len > 1 {
        gapped(groups_text(g, 0, start), groups_text(g, start + len, 8))
    } else {
        groups_text(g, 0, 8)
    }
}

proof fn lemma_grouped_chars(g: Seq<u16>)
    requires
        g.len() == 8,
    ensures
        free_of(grouped(g), '.'),
        free_of(grouped(g), ']'),
{
    let (start, len) = longest_zeros(g, 0);
    let s = grouped(g);
    lemma_groups_chars(g, 0, start);
    lemma_groups_chars(g, start + len, 8);
    lemma_groups_chars(g, 0, 8);
    assert forall|k: int| 0 <= k < s.len() implies is_hex(#[trigger] s[k]) || s[k] == ':' by {
        if len > 1 {
            let p = groups_text(g, 0, start);
            let x = groups_text(g, start + len, 8);
            if k < p.len() {
                assert(s[k] == p[k]);
            } else if k >= p.len() + 2 {
                assert(s[k] == x[k - p.len() - 2]);
            }
        }
    }
}

proof fn lemma_grouped_differ(g: Seq<u16>, h: Seq<u16>)
    requires
        g.len() == 8,
        h.len() == 8,
        grouped(g) == grouped(h),
    ensures
        g == h,
{
    let (a, m) = longest_zeros(g, 0);
    let (b, n) = longest_zeros(h, 0);
    lemma_longest_zeros(g, 0);
    lemma_longest_zeros(h, 0);
    lemma_groups_chars(g, 0, a);
    lemma_groups_chars(h, 0, b);
    lemma_groups_chars(g, 0, 8);
    lemma_groups_chars(h, 0, 8);
    let p = groups_text(g, 0, a);
    let q = groups_text(h, 0, b);
    let x = groups_text(g, a + m, 8);
    let y = groups_text(h, b + n, 8);
    if m > 1 && n > 1 {
        lemma_gap(p, x, q, y);
        lemma_groups_differ(g, 0, a, h, 0, b);
        lemma_groups_differ(g, a + m, 8, h, b + n, 8);
        assert forall|k: int| 0 <= k < 8 implies g[k] == h[k] by {
            if k < a {
                assert(g[0 + k] == h[0 + k]);
            } else if k >= a + m {
                let d = k - (a + m);
                assert(g[a + m + d] == h[b + n + d]);
            }
        }
    } else if m > 1 {
        let s = gapped(p, x);
        assert(s[p.len() as int] == ':' && s[p.len() as int + 1] == ':');
    } else if n > 1 {
        let s = gapped(q, y);
        assert(s[q.len() as int] == ':' && s[q.len() as int + 1] == ':');
    } else {
        lemma_groups_differ(g, 0, 8, h, 0, 8);
        assert forall|k: int| 0 <= k < 8 implies g[k] == h[k] by {
            assert(g[0 + k] == h[0 + k]);
        }
    }
    assert(g =~= h);
}

proof fn lemma_ipv6_forms(a: u32, b: u32, c: u32, d: u32)
    ensures
        free_of(ipv6_text(a, b, c, d), ']'),
        a == 0 && b == 0 && c == 0xffff ==> ipv6_text(a, b, c, d) == "::ffff:"@ + ipv4_text(d)
            && !free_of(ipv6_text(a, b, c, d), '.'),
        !(a == 0 && b == 0 && c == 0xffff) ==> ipv6_text(a, b, c, d) == grouped(
            groups(a, b, c, d),
        ) && free_of(ipv6_text(a, b, c, d), '.'),
{
    reveal_strlit("::ffff:");
    reveal_strlit("::");
    assert("::"@ =~= seq![':', ':']);
    let s = ipv6_text(a, b, c, d);
    if a == 0 && b == 0 && c == 0xffff {
        lemma_dotted(d);
        let stem = "::ffff:"@;
        let t = ipv4_text(d);
        let k = choose|k: int| 0 <= k < t.len() && t[k] == '.';
        assert(s[stem.len() + k] == '.');
        assert forall|i: int| 0 <= i < s.len() implies #[trigger] s[i] != ']' by {
            if i >= stem.len() {
                assert(s[i] == t[i - stem.len()]);
            }
        }
    } else {
        lemma_grouped_chars(groups(a, b, c, d));
    }
}

/// Different IPv6 addresses have different texts.
pub proof fn law_ipv6_texts_differ(
    a: u32,
    b: u32,
    c: u32,
    d: u32,
    p: u32,
    q: u32,
    r: u32,
    s: u32,
)
    requires
        ipv6_text(a, b, c, d) == ipv6_text(p, q, r, s),
    ensures
        a == p && b == q && c == r && d == s,
{
    lemma_ipv6_forms(a, b, c, d);
    lemma_ipv6_forms(p, q, r, s);
    if a == 0 && b == 0 && c == 0xffff {
        let stem = "::ffff:"@;
        let n = stem.len() as int;
        assert((stem + ipv4_text(d)).skip(n) =~= ipv4_text(d));
        assert((stem + ipv4_text(s)).skip(n) =~= ipv4_text(s));
        law_ipv4_texts_differ(d, s);
    } else {
        let g = groups(a, b, c, d);
        let h = groups(p, q, r, s);
        lemma_grouped_differ(g, h);
        assert(g[0] == h[0] && g[1] == h[1] && g[2] == h[2] && g[3] == h[3]);
        assert(g[4] == h[4] && g[5] == h[5] && g[6] == h[6] && g[7] == h[7]);
        assert(a == p && b == q && c == r && d == s);
    }
}

/// Different addresses have different texts: what is written can be told apart.
#[verifier::rlimit(40)]
pub proof fn law_addresses_are_told_apart(x: SocketAddr, y: SocketAddr)
    requires
        addr_text(x) == addr_text(y),
    ensures
        x == y,
{
    reveal_strlit(":");
    reveal_strlit("[");
    reveal_strlit("]:");
    assert(":"@ =~= seq![':']);
    assert("["@ =~= seq!['[']);
    assert("]:"@ =~= seq![']', ':']);
    let m = decimal(x.port as nat);
    let n = decimal(y.port as nat);
    match (x.ip, y.ip) {
        (IpAddr::V4(a), IpAddr::V4(b)) => {
            lemma_dotted(a);
            lemma_dotted(b);
            lemma_split_first(ipv4_text(a), m, ipv4_text(b), n, ':');
            law_ipv4_texts_differ(a, b);
        },
        (IpAddr::V6(a, b, c, d), IpAddr::V6(p, q, r, s)) => {
            let u = ipv6_text(a, b, c, d);
            let v = ipv6_text(p, q, r, s);
            lemma_ipv6_forms(a, b, c, d);
            lemma_ipv6_forms(p, q, r, s);
            assert(addr_text(x).skip(1) =~= u + seq![']'] + (seq![':'] + m));
            assert(addr_text(y).skip(1) =~= v + seq![']'] + (seq![':'] + n));
            lemma_split_first(u, seq![':'] + m, v, seq![':'] + n, ']');
            assert((seq![':'] + m).skip(1) =~= m && (seq![':'] + n).skip(1) =~= n);
            law_ipv6_texts_differ(a, b, c, d, p, q, r, s);
        },
        (IpAddr::V4(a), IpAddr::V6(p, q, r, s)) => {
            lemma_dotted(a);
            assert(addr_text(x)[0] == ipv4_text(a)[0]);
            assert(addr_text(y)[0] == '[');
        },
        (IpAddr::V6(p, q, r, s), IpAddr::V4(a)) => {
            lemma_dotted(a);
            assert(addr_text(y)[0] == ipv4_text(a)[0]);
            assert(addr_text(x)[0] == '[');
        },
    }
    lemma_decimal_differs(x.port as nat, y.port as nat);
}

} // verus!
