//! Byte-string helpers shared by every parser and builder of the crate.
//!
//! All multi-byte integers on the wire are big-endian. The specification
//! functions say what number a run of bytes stands for; the executable ones
//! read and append such runs.
use vstd::arithmetic::div_mod::{
    lemma_add_mod_noop, lemma_mod_add_multiples_vanish, lemma_mod_twice, lemma_small_mod,
};
use vstd::prelude::*;
use vstd::slice::slice_subrange;

verus! {

/// The 16-bit number at offset `i`.
pub open spec fn be16_at(s: Seq<u8>, i: int) -> int {
    s[i] * 256 + s[i + 1]
}

/// The 32-bit number at offset `i`.
pub open spec fn be32_at(s: Seq<u8>, i: int) -> int {
    s[i] * 16777216 + s[i + 1] * 65536 + s[i + 2] * 256 + s[i + 3]
}

/// The two bytes that stand for `x`.
pub open spec fn be16_bytes(x: u16) -> Seq<u8> {
    seq![(x / 256) as u8, (x % 256) as u8]
}

/// The four bytes that stand for `x`.
pub open spec fn be32_bytes(x: u32) -> Seq<u8> {
    seq![
        (x / 16777216) as u8,
        ((x / 65536) % 256) as u8,
        ((x / 256) % 256) as u8,
        (x % 256) as u8,
    ]
}

/// `x + n` on a 64-bit counter that wraps.
pub open spec fn add64(x: u64, n: int) -> u64 {
    ((x + n) % 0x1_0000_0000_0000_0000) as u64
}

/// `x - y` on a 64-bit counter that wraps.
pub open spec fn sub64(x: u64, y: u64) -> u64 {
    ((x - y) % 0x1_0000_0000_0000_0000) as u64
}

/// `x + n` on 32-bit sequence numbers, which wrap.
pub open spec fn add32(x: u32, n: int) -> u32 {
    ((x + n) % 0x1_0000_0000) as u32
}

/// `x - y` on 32-bit sequence numbers, read as a signed distance.
pub open spec fn seq_distance(x: u32, y: u32) -> int {
    let d = (x - y) % 0x1_0000_0000;
    if d < 0x8000_0000 {
        d
    } else {
        d - 0x1_0000_0000
    }
}

/// How far `x` lies ahead of `y`; negative where it lies behind.
pub fn seq_ahead(x: u32, y: u32) -> (r: i64)
    ensures
        r == seq_distance(x, y),
{
    let d: u32 = x.wrapping_sub(y);
    assert(d == (x - y) % 0x1_0000_0000);
    if d < 0x8000_0000 {
        d as i64
    } else {
        d as i64 - 0x1_0000_0000
    }
}

/// Reads the 16-bit number at the start of `b`.
pub fn be16(b: &[u8]) -> (r: u16)
    requires
        b@.len() >= 2,
    ensures
        r == be16_at(b@, 0),
{
    (b[0] as u16) * 256 + b[1] as u16
}

/// Reads the 32-bit number at the start of `b`.
pub fn be32(b: &[u8]) -> (r: u32)
    requires
        b@.len() >= 4,
    ensures
        r == be32_at(b@, 0),
{
    (b[0] as u32) * 16777216 + (b[1] as u32) * 65536 + (b[2] as u32) * 256 + b[3] as u32
}

/// The bytes of `b` from offset `i` on.
pub fn skip(b: &[u8], i: usize) -> (r: &[u8])
    requires
        i <= b@.len(),
    ensures
        r@ == b@.skip(i as int),
{
    slice_subrange(b, i, b.len())
}

/// The first `n` bytes of `b`.
pub fn take(b: &[u8], n: usize) -> (r: &[u8])
    requires
        n <= b@.len(),
    ensures
        r@ == b@.take(n as int),
{
    slice_subrange(b, 0, n)
}

/// Appends all of `s`.
pub fn push_all(out: &mut Vec<u8>, s: &[u8])
    ensures
        final(out)@ == old(out)@ + s@,
{
    out.extend_from_slice(s);
    assert(out@ =~= old(out)@ + s@);
}

/// Appends a 16-bit number.
pub fn push_be16(out: &mut Vec<u8>, x: u16)
    ensures
        final(out)@ == old(out)@ + be16_bytes(x),
{
    out.push((x / 256) as u8);
    out.push((x % 256) as u8);
    assert(out@ =~= old(out)@ + be16_bytes(x));
}

/// Appends a 32-bit number.
pub fn push_be32(out: &mut Vec<u8>, x: u32)
    ensures
        final(out)@ == old(out)@ + be32_bytes(x),
{
    out.push((x / 16777216) as u8);
    out.push(((x / 65536) % 256) as u8);
    out.push(((x / 256) % 256) as u8);
    out.push((x % 256) as u8);
    assert(out@ =~= old(out)@ + be32_bytes(x));
}

/// A sequence number `n` bytes on.
pub fn seq_plus(seq: u32, n: u64) -> (r: u32)
    ensures
        r == add32(seq, n as int),
{
    let low: u32 = (n % 0x1_0000_0000) as u32;
    seq.wrapping_add(low)
}

/// A counter or an offset `n` bytes on.
pub fn off_plus(off: u64, n: u64) -> (r: u64)
    ensures
        r == add64(off, n as int),
{
    off.wrapping_add(n)
}

/// A copy of `s`.
pub fn copy_bytes(s: &[u8]) -> (r: Vec<u8>)
    ensures
        r@ == s@,
{
    vstd::slice::slice_to_vec(s)
}

/// Whether the two byte strings are the same.
pub fn same_bytes(a: &[u8], b: &[u8]) -> (r: bool)
    ensures
        r == (a@ == b@),
{
    if a.len() != b.len() {
        return false;
    }
    let mut i: usize = 0;
    while i < a.len()
        invariant
            i <= a@.len(),
            a@.len() == b@.len(),
            forall|j: int| 0 <= j < i ==> a@[j] == b@[j],
        decreases a@.len() - i,
    {
        if a[i] != b[i] {
            return false;
        }
        i += 1;
    }
    assert(a@ =~= b@);
    true
}

/// Adding in two steps is adding at once.
pub proof fn lemma_add64_twice(x: u64, n: int, m: int)
    ensures
        add64(add64(x, n), m) == add64(x, n + m),
{
    let w = 0x1_0000_0000_0000_0000int;
    assert(((x + n) % w + m) % w == (x + n + m) % w) by (nonlinear_arith)
        requires
            w == 0x1_0000_0000_0000_0000int,
    ;
}

/// The same of sequence numbers.
pub proof fn lemma_add32_twice(x: u32, n: int, m: int)
    ensures
        add32(add32(x, n), m) == add32(x, n + m),
{
    let w = 0x1_0000_0000int;
    assert(((x + n) % w + m) % w == (x + n + m) % w) by (nonlinear_arith)
        requires
            w == 0x1_0000_0000int,
    ;
}

/// `x + n` on a counter that wraps.
pub open spec fn counted(x: usize, n: int) -> usize {
    ((x + n) % (usize::MAX + 1)) as usize
}

/// A counter `n` up.
pub fn count_up(x: usize, n: usize) -> (r: usize)
    ensures
        r == counted(x, n as int),
{
    let r: usize = x.wrapping_add(n);
    proof {
        let w = usize::MAX + 1;
        if x + n < w {
            lemma_small_mod((x + n) as nat, w as nat);
        } else {
            lemma_small_mod((x + n - w) as nat, w as nat);
            lemma_mod_add_multiples_vanish(x + n - w, w);
        }
    }
    r
}

/// Counting nothing changes nothing.
pub proof fn lemma_count_nothing(x: usize)
    ensures
        counted(x, 0) == x,
{
    lemma_small_mod(x as nat, (usize::MAX + 1) as nat);
}

/// Counting in two steps is counting at once.
pub proof fn lemma_counted_twice(x: usize, n: int, m: int)
    ensures
        counted(counted(x, n), m) == counted(x, n + m),
{
    let w = usize::MAX + 1;
    lemma_add_mod_noop(x + n, m, w);
    lemma_add_mod_noop((x + n) % w, m, w);
    lemma_mod_twice(x + n, w);
    assert(((x + n) % w + m) % w == (x + n + m) % w);
}

} // verus!
