//! Port lists: how they are written, and sorted sets of them.
use vstd::prelude::*;
use vstd::string::*;

use crate::text::{chars_of, decimal, push_decimal, text_from};

pub mod laws;

verus! {

/// Whether the list is in ascending order without repetition.
pub open spec fn ascending(v: Seq<u16>) -> bool {
    forall|i: int, j: int| 0 <= i < j < v.len() ==> v[i] < v[j]
}

/// Position of the first port in `v` that is not below `p`.
fn port_slot(v: &[u16], p: u16) -> (r: usize)
    requires
        ascending(v@),
    ensures
        r <= v@.len(),
        forall|i: int| 0 <= i < r ==> v@[i] < p,
        forall|i: int| r <= i < v@.len() ==> v@[i] >= p,
{
    let mut lo: usize = 0;
    let mut hi: usize = v.len();
    while lo < hi
        invariant
            lo <= hi <= v@.len(),
            ascending(v@),
            forall|i: int| 0 <= i < lo ==> v@[i] < p,
            forall|i: int| hi <= i < v@.len() ==> v@[i] >= p,
        decreases hi - lo,
    {
        let mid: usize = lo + (hi - lo) / 2;
        if v[mid] < p {
            lo = mid + 1;
        } else {
            hi = mid;
        }
    }
    lo
}

/// Whether the sorted list `v` holds `p`.
pub fn contains_port(v: &[u16], p: u16) -> (r: bool)
    requires
        ascending(v@),
    ensures
        r == v@.contains(p),
{
    let i = port_slot(v, p);
    if i < v.len() && v[i] == p {
        assert(v@[i as int] == p);
        true
    } else {
        assert forall|j: int| 0 <= j < v@.len() implies v@[j] != p by {
            if j >= i {
                if j > i {
                    assert(v@[i as int] < v@[j]);
                }
            }
        }
        false
    }
}

/// Adds a port to a sorted list.
fn insert_port(v: &mut Vec<u16>, p: u16)
    requires
        ascending(old(v)@),
    ensures
        ascending(final(v)@),
        forall|q: u16| #[trigger] final(v)@.contains(q) <==> old(v)@.contains(q) || q == p,
{
    let i = port_slot(v.as_slice(), p);
    let ghost before = v@;
    if i < v.len() && v[i] == p {
        assert(before.contains(p));
        return;
    }
    assert(forall|j: int| i <= j < before.len() ==> before[j] > p) by {
        assert forall|j: int| i <= j < before.len() implies before[j] > p by {
            if j > i {
                assert(before[i as int] < before[j]);
            }
        }
    }
    v.insert(i, p);
    assert(v@ == before.insert(i as int, p));
    assert forall|q: u16| #[trigger] v@.contains(q) <==> before.contains(q) || q == p by {
        if before.contains(q) {
            let j = before.index_of(q);
            assert(v@[if j < i {
                j
            } else {
                j + 1
            }] == q);
        }
        if q == p {
            assert(v@[i as int] == q);
        }
        if v@.contains(q) {
            let j = v@.index_of(q);
            if j < i {
                assert(before[j] == q);
            } else if j > i {
                assert(before[j - 1] == q);
            }
        }
    }
}

/// The ports of a list in ascending order, each once.
pub fn sorted_ports(ports: &[u16]) -> (r: Vec<u16>)
    ensures
        ascending(r@),
        r@.to_set() == ports@.to_set(),
{
    let mut out: Vec<u16> = Vec::new();
    let mut i: usize = 0;
    while i < ports.len()
        invariant
            i <= ports@.len(),
            ascending(out@),
            forall|q: u16| #[trigger] out@.contains(q) <==> ports@.take(i as int).contains(q),
        decreases ports@.len() - i,
    {
        insert_port(&mut out, ports[i]);
        proof {
            let a = ports@.take(i as int);
            let b = ports@.take(i + 1);
            assert(b =~= a.push(ports@[i as int]));
            assert forall|q: u16| b.contains(q) <==> a.contains(q) || q == ports@[i as int] by {
                if a.contains(q) {
                    assert(b[a.index_of(q)] == q);
                }
                if q == ports@[i as int] {
                    assert(b[i as int] == q);
                }
                if b.contains(q) {
                    let j = b.index_of(q);
                    if j < i {
                        assert(a[j] == q);
                    }
                }
            }
        }
        i += 1;
    }
    assert(ports@.take(ports@.len() as int) =~= ports@);
    assert(out@.to_set() =~= ports@.to_set());
    out
}

/// Whether a character is white space, as Unicode has it.
pub open spec fn white_space(c: char) -> bool {
    ||| '\u{9}' <= c <= '\u{d}'
    ||| c == ' '
    ||| c == '\u{85}'
    ||| c == '\u{a0}'
    ||| c == '\u{1680}'
    ||| '\u{2000}' <= c <= '\u{200a}'
    ||| c == '\u{2028}'
    ||| c == '\u{2029}'
    ||| c == '\u{202f}'
    ||| c == '\u{205f}'
    ||| c == '\u{3000}'
}

/// The text without white space in front.
pub open spec fn trimmed_front(s: Seq<char>) -> Seq<char>
    decreases s.len(),
{
    if s.len() > 0 && white_space(s[0]) {
        trimmed_front(s.skip(1))
    } else {
        s
    }
}

/// The text without white space behind.
pub open spec fn trimmed_back(s: Seq<char>) -> Seq<char>
    decreases s.len(),
{
    if s.len() > 0 && white_space(s.last()) {
        trimmed_back(s.drop_last())
    } else {
        s
    }
}

/// The text without white space on either side.
pub open spec fn trimmed(s: Seq<char>) -> Seq<char> {
    trimmed_back(trimmed_front(s))
}

/// Position from `i` on of the first `c`; the length where there is none.
pub open spec fn position(s: Seq<char>, c: char, i: int) -> int
    decreases s.len() - i,
{
    if i < 0 || i >= s.len() {
        s.len() as int
    } else if s[i] == c {
        i
    } else {
        position(s, c, i + 1)
    }
}

/// The value of a decimal digit.
pub open spec fn digit_of(c: char) -> Option<int> {
    if '0' <= c <= '9' {
        Some(c as int - '0' as int)
    } else {
        None
    }
}

/// The number that a run of decimal digits stands for.
pub open spec fn number(s: Seq<char>) -> Option<int>
    decreases s.len(),
{
    if s.len() == 0 {
        Some(0)
    } else {
        match (number(s.drop_last()), digit_of(s.last())) {
            (Some(n), Some(d)) => Some(n * 10 + d),
            _ => None,
        }
    }
}

/// The port that a text stands for: decimal digits, a plus sign allowed in
/// front, and no more than 65535.
pub open spec fn port_of(s: Seq<char>) -> Option<u16> {
    let digits = if s.len() > 0 && s[0] == '+' {
        s.skip(1)
    } else {
        s
    };
    if digits.len() == 0 {
        None
    } else {
        match number(digits) {
            Some(n) => if n <= 65535 {
                Some(n as u16)
            } else {
                None
            },
            None => None,
        }
    }
}

/// What is wrong with a port list.
#[derive(Debug)]
pub enum PortsError {
    /// Not a port.
    BadPort(String),
    /// A range that ends before it starts.
    EmptyRange(u16, u16),
}

/// The same as a mathematical value.
#[verifier::ext_equal]
pub enum PortsErrorView {
    BadPort(Seq<char>),
    EmptyRange(u16, u16),
}

impl View for PortsError {
    type V = PortsErrorView;

    open spec fn view(&self) -> PortsErrorView {
        match self {
            PortsError::BadPort(s) => PortsErrorView::BadPort(s@),
            PortsError::EmptyRange(a, b) => PortsErrorView::EmptyRange(*a, *b),
        }
    }
}

/// The ports between two, both included.
pub open spec fn port_range(a: u16, b: u16) -> Set<u16> {
    Set::new(|p: u16| a <= p <= b)
}

/// The ports that one item of a list stands for: a port, a range, or nothing.
pub open spec fn item_ports(item: Seq<char>) -> Result<Set<u16>, PortsErrorView> {
    let d = position(item, '-', 0);
    if item.len() == 0 {
        Ok(Set::empty())
    } else if d < item.len() {
        let low = item.take(d);
        let high = item.skip(d + 1);
        match (port_of(trimmed(low)), port_of(trimmed(high))) {
            (None, _) => Err(PortsErrorView::BadPort(low)),
            (_, None) => Err(PortsErrorView::BadPort(high)),
            (Some(a), Some(b)) => if a > b {
                Err(PortsErrorView::EmptyRange(a, b))
            } else {
                Ok(port_range(a, b))
            },
        }
    } else {
        match port_of(item) {
            None => Err(PortsErrorView::BadPort(item)),
            Some(p) => Ok(port_range(p, p)),
        }
    }
}

/// The ports that a list stands for: items with commas between them. The first
/// item that is wrong decides the error.
pub open spec fn listed_ports(s: Seq<char>) -> Result<Set<u16>, PortsErrorView>
    decreases s.len(),
{
    let i = position(s, ',', 0);
    match item_ports(trimmed(s.take(i))) {
        Err(e) => Err(e),
        Ok(ports) => if i >= s.len() || i < 0 {
            Ok(ports)
        } else {
            match listed_ports(s.skip(i + 1)) {
                Err(e) => Err(e),
                Ok(rest) => Ok(ports.union(rest)),
            }
        },
    }
}

/// Where `c` first stands in `s`; its length where it does not.
pub fn find_char(s: &[char], c: char) -> (r: usize)
    ensures
        r == position(s@, c, 0),
        r <= s@.len(),
{
    let mut i: usize = 0;
    while i < s.len()
        invariant
            i <= s@.len(),
            position(s@, c, 0) == position(s@, c, i as int),
        decreases s@.len() - i,
    {
        if s[i] == c {
            return i;
        }
        i += 1;
    }
    i
}

fn is_white_space(c: char) -> (r: bool)
    ensures
        r == white_space(c),
{
    (c >= '\u{9}' && c <= '\u{d}') || c == ' ' || c == '\u{85}' || c == '\u{a0}' || c
        == '\u{1680}' || (c >= '\u{2000}' && c <= '\u{200a}') || c == '\u{2028}' || c
        == '\u{2029}' || c == '\u{202f}' || c == '\u{205f}' || c == '\u{3000}'
}

/// `s` without white space on either side.
pub fn trim(s: &[char]) -> (r: &[char])
    ensures
        r@ == trimmed(s@),
{
    let mut i: usize = 0;
    assert(s@.skip(0) =~= s@);
    while i < s.len() && is_white_space(s[i])
        invariant
            i <= s@.len(),
            trimmed_front(s@) == trimmed_front(s@.skip(i as int)),
        decreases s@.len() - i,
    {
        assert(s@.skip(i as int).skip(1) =~= s@.skip(i + 1));
        i += 1;
    }
    let front = vstd::slice::slice_subrange(s, i, s.len());
    assert(front@ =~= s@.skip(i as int));
    assert(front@ == trimmed_front(s@));
    let mut j: usize = front.len();
    assert(front@.take(j as int) =~= front@);
    while j > 0 && is_white_space(front[j - 1])
        invariant
            j <= front@.len(),
            trimmed_back(front@) == trimmed_back(front@.take(j as int)),
        decreases j,
    {
        assert(front@.take(j as int).drop_last() =~= front@.take(j - 1));
        assert(front@.take(j as int).last() == front@[j - 1]);
        j -= 1;
    }
    proof {
        if j > 0 {
            assert(front@.take(j as int).last() == front@[j - 1]);
        }
    }
    vstd::slice::slice_subrange(front, 0, j)
}

proof fn lemma_number_grows(s: Seq<char>, k: int)
    requires
        0 <= k <= s.len(),
        number(s) is Some,
    ensures
        number(s.take(k)) is Some,
        0 <= number(s.take(k))->Some_0 <= number(s)->Some_0,
    decreases s.len(),
{
    if k == s.len() {
        assert(s.take(k) =~= s);
        if s.len() > 0 {
            lemma_number_grows(s.drop_last(), 0);
            assert(s.drop_last().take(0) =~= Seq::<char>::empty());
        }
    } else {
        lemma_number_grows(s.drop_last(), k);
        assert(s.drop_last().take(k) =~= s.take(k));
    }
}

fn parse_port(s: &[char]) -> (r: Option<u16>)
    ensures
        r == port_of(s@),
{
    let digits = if s.len() > 0 && s[0] == '+' {
        vstd::slice::slice_subrange(s, 1, s.len())
    } else {
        s
    };
    assert(s@.len() > 0 ==> s@.subrange(1, s@.len() as int) =~= s@.skip(1));
    if digits.len() == 0 {
        return None;
    }
    let mut n: u32 = 0;
    let mut i: usize = 0;
    let ghost all = digits@;
    while i < digits.len()
        invariant
            i <= digits@.len(),
            all == digits@,
            all.len() > 0,
            all == (if s@.len() > 0 && s@[0] == '+' {
                s@.skip(1)
            } else {
                s@
            }),
            n <= 65535,
            number(all.take(i as int)) == Some(n as int),
        decreases digits@.len() - i,
    {
        let c: char = digits[i];
        proof {
            assert(all.take(i + 1).drop_last() =~= all.take(i as int));
            assert(all.take(i + 1).last() == c);
            if number(all) is Some {
                lemma_number_grows(all, i + 1);
            }
        }
        if c < '0' || c > '9' {
            return None;
        }
        n = n * 10 + (c as u32 - '0' as u32);
        if n > 65535 {
            return None;
        }
        i += 1;
    }
    assert(all.take(all.len() as int) =~= all);
    Some(n as u16)
}

/// Adds the ports between `a` and `b`.
fn insert_range(v: &mut Vec<u16>, a: u16, b: u16)
    requires
        ascending(old(v)@),
        a <= b,
    ensures
        ascending(final(v)@),
        forall|q: u16|
            #[trigger] final(v)@.contains(q) <==> old(v)@.contains(q) || a <= q <= b,
{
    let mut p: u16 = a;
    loop
        invariant_except_break
            a <= p <= b,
            ascending(v@),
            forall|q: u16| #[trigger] v@.contains(q) <==> old(v)@.contains(q) || a <= q < p,
        ensures
            ascending(v@),
            forall|q: u16| #[trigger] v@.contains(q) <==> old(v)@.contains(q) || a <= q <= b,
        decreases b - p,
    {
        insert_port(v, p);
        if p == b {
            break;
        }
        p += 1;
    }
}

/// Adds the ports that one item stands for.
fn insert_item(v: &mut Vec<u16>, item: &[char]) -> (r: Result<(), PortsError>)
    requires
        ascending(old(v)@),
    ensures
        match item_ports(item@) {
            Ok(ports) => {
                &&& r is Ok
                &&& ascending(final(v)@)
                &&& forall|q: u16|
                    #[trigger] final(v)@.contains(q) <==> old(v)@.contains(q) || ports.contains(q)
            },
            Err(e) => r matches Err(x) && x@ == e,
        },
{
    if item.len() == 0 {
        return Ok(());
    }
    let d = find_char(item, '-');
    if d < item.len() {
        let low = vstd::slice::slice_subrange(item, 0, d);
        let high = vstd::slice::slice_subrange(item, d + 1, item.len());
        assert(low@ =~= item@.take(d as int));
        assert(high@ =~= item@.skip(d + 1));
        let a: u16 = match parse_port(trim(low)) {
            Some(a) => a,
            None => return Err(PortsError::BadPort(text_from(low))),
        };
        let b: u16 = match parse_port(trim(high)) {
            Some(b) => b,
            None => return Err(PortsError::BadPort(text_from(high))),
        };
        if a > b {
            return Err(PortsError::EmptyRange(a, b));
        }
        insert_range(v, a, b);
    } else {
        match parse_port(item) {
            Some(p) => insert_range(v, p, p),
            None => return Err(PortsError::BadPort(text_from(item))),
        }
    }
    Ok(())
}

/// Reads a port list: ports and ranges with commas between them. The result is
/// sorted and holds each port once.
pub fn parse_ports(spec: &str) -> (r: Result<Vec<u16>, PortsError>)
    ensures
        match listed_ports(spec@) {
            Ok(ports) => r matches Ok(v) && ascending(v@) && v@.to_set() == ports,
            Err(e) => r matches Err(x) && x@ == e,
        },
{
    let all: Vec<char> = chars_of(spec);
    let mut out: Vec<u16> = Vec::new();
    let mut rest = all.as_slice();
    let ghost mut done: Set<u16> = Set::empty();
    assert(out@.to_set() =~= done);
    proof {
        if let Ok(ports) = listed_ports(spec@) {
            assert(done.union(ports) =~= ports);
        }
    }
    loop
        invariant_except_break
            ascending(out@),
            forall|q: u16| #[trigger] out@.contains(q) <==> done.contains(q),
            match listed_ports(rest@) {
                Ok(ports) => listed_ports(spec@) == Ok::<Set<u16>, PortsErrorView>(
                    done.union(ports),
                ),
                Err(e) => listed_ports(spec@) == Err::<Set<u16>, PortsErrorView>(e),
            },
        ensures
            ascending(out@),
            forall|q: u16| #[trigger] out@.contains(q) <==> done.contains(q),
            listed_ports(spec@) == Ok::<Set<u16>, PortsErrorView>(done),
        decreases rest@.len(),
    {
        let i = find_char(rest, ',');
        let part = vstd::slice::slice_subrange(rest, 0, i);
        assert(part@ =~= rest@.take(i as int));
        match insert_item(&mut out, trim(part)) {
            Err(e) => return Err(e),
            Ok(()) => {},
        }
        let ghost these = item_ports(trimmed(part@))->Ok_0;
        proof {
            if i < rest@.len() {
                if let Ok(more) = listed_ports(rest@.skip(i + 1)) {
                    assert(done.union(these.union(more)) =~= done.union(these).union(more));
                }
            }
            done = done.union(these);
        }
        if i >= rest.len() {
            break;
        }
        rest = vstd::slice::slice_subrange(rest, i + 1, rest.len());
    }
    assert(out@.to_set() =~= done);
    Ok(out)
}

/// The ports in decimal with commas between them.
pub open spec fn ports_text(v: Seq<u16>) -> Seq<char>
    decreases v.len(),
{
    if v.len() == 0 {
        Seq::empty()
    } else if v.len() == 1 {
        decimal(v[0] as nat)
    } else {
        ports_text(v.drop_last()) + ","@ + decimal(v.last() as nat)
    }
}

/// Writes a port list.
pub fn fmt_ports(ports: &[u16]) -> (r: String)
    ensures
        r@ == ports_text(ports@),
{
    let mut out: String = String::new();
    let mut i: usize = 0;
    assert(ports_text(ports@.take(0)) =~= Seq::<char>::empty());
    assert(out@ =~= Seq::<char>::empty());
    while i < ports.len()
        invariant
            i <= ports@.len(),
            out@ == ports_text(ports@.take(i as int)),
        decreases ports@.len() - i,
    {
        if i > 0 {
            out.append(",");
        }
        push_decimal(&mut out, ports[i] as u64);
        proof {
            let t = ports@.take(i + 1);
            assert(t.drop_last() =~= ports@.take(i as int));
            assert(t.last() == ports@[i as int]);
            assert(out@ =~= ports_text(t));
        }
        i += 1;
    }
    assert(ports@.take(ports@.len() as int) =~= ports@);
    out
}

} // verus!
