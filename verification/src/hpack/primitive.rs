//! Integer and string representations of RFC 7541 section 5.
use vstd::prelude::*;

use crate::bytes::{copy_bytes, push_all, skip, take};
use crate::hpack::huffman::{huffman_decode, huffman_decoded};
use crate::hpack::HpackError;

verus! {

/// The largest value that fits an `n`-bit prefix, for `n` from 1 to 8.
pub open spec fn prefix_max(n: u8) -> int {
    if n == 1 {
        1
    } else if n == 2 {
        3
    } else if n == 3 {
        7
    } else if n == 4 {
        15
    } else if n == 5 {
        31
    } else if n == 6 {
        63
    } else if n == 7 {
        127
    } else {
        255
    }
}

/// Weight of the `k`-th continuation byte: 128 to the power of `k`.
pub open spec fn group_weight(k: int) -> int {
    if k == 0 {
        1
    } else if k == 1 {
        128
    } else if k == 2 {
        16384
    } else if k == 3 {
        2097152
    } else {
        268435456
    }
}

/// The continuation bytes of an integer whose first `k` continuation bytes,
/// together with the prefix, amount to `acc`. Gives the value and the number of
/// bytes read. Five continuation bytes are the limit, which covers every 32-bit
/// number.
pub open spec fn int_tail(b: Seq<u8>, acc: int, k: int) -> Result<(usize, int), HpackError>
    decreases b.len(),
{
    if b.len() == 0 {
        Err(HpackError::Truncated)
    } else if k > 4 {
        Err(HpackError::IntOverflow)
    } else {
        let v = acc + (b[0] % 128) * group_weight(k);
        if v > usize::MAX {
            Err(HpackError::IntOverflow)
        } else if b[0] < 128 {
            Ok((v as usize, 1))
        } else {
            match int_tail(b.skip(1), v, k + 1) {
                Ok((value, used)) => Ok((value, used + 1)),
                Err(e) => Err(e),
            }
        }
    }
}

/// The integer with an `n`-bit prefix at the start of `b`: its value and the
/// number of bytes it takes.
pub open spec fn int_at(b: Seq<u8>, n: u8) -> Result<(usize, int), HpackError> {
    if b.len() == 0 {
        Err(HpackError::Truncated)
    } else {
        let v = b[0] as int % (prefix_max(n) + 1);
        if v < prefix_max(n) {
            Ok((v as usize, 1))
        } else {
            match int_tail(b.skip(1), v, 0) {
                Ok((value, used)) => Ok((value, used + 1)),
                Err(e) => Err(e),
            }
        }
    }
}

/// An integer takes at least one byte and no more than there are.
pub proof fn lemma_int_at_bounds(b: Seq<u8>, n: u8)
    ensures
        int_at(b, n) matches Ok((_, used)) ==> 1 <= used <= b.len(),
{
    if b.len() > 0 {
        lemma_int_tail_bounds(b.skip(1), b[0] as int % (prefix_max(n) + 1), 0);
    }
}

proof fn lemma_int_tail_bounds(b: Seq<u8>, acc: int, k: int)
    ensures
        int_tail(b, acc, k) matches Ok((_, used)) ==> 1 <= used <= b.len(),
    decreases b.len(),
{
    if b.len() > 0 && k <= 4 {
        let v = acc + (b[0] % 128) * group_weight(k);
        lemma_int_tail_bounds(b.skip(1), v, k + 1);
    }
}

/// The prefix mask for `n` bits.
fn mask_of(n: u8) -> (r: u8)
    requires
        1 <= n <= 8,
    ensures
        r == prefix_max(n),
{
    if n == 1 {
        1
    } else if n == 2 {
        3
    } else if n == 3 {
        7
    } else if n == 4 {
        15
    } else if n == 5 {
        31
    } else if n == 6 {
        63
    } else if n == 7 {
        127
    } else {
        255
    }
}

/// RFC 7541 5.1 variable length integer with an N-bit prefix. Returns the
/// value and the bytes after it.
pub fn read_int(b: &[u8], n: u8) -> (r: Result<(usize, &[u8]), HpackError>)
    requires
        1 <= n <= 8,
    ensures
        match r {
            Ok((v, rest)) => {
                &&& int_at(b@, n) matches Ok((value, used))
                &&& v == value
                &&& rest@ == b@.skip(used)
            },
            Err(e) => int_at(b@, n) == Err::<(usize, int), HpackError>(e),
        },
{
    if b.len() == 0 {
        return Err(HpackError::Truncated);
    }
    let max: u8 = mask_of(n);
    let first: u8 = if max == 255 {
        b[0]
    } else {
        b[0] % (max + 1)
    };
    if first < max {
        return Ok((first as usize, skip(b, 1)));
    }
    let mut v: u64 = first as u64;
    let mut rest = skip(b, 1);
    let mut weight: u64 = 1;
    let mut k: u8 = 0;
    let ghost mut used: int = 1;
    loop
        invariant
            b@.len() > 0,
            1 <= used <= b@.len(),
            k <= 5,
            used == k + 1,
            rest@ == b@.skip(used),
            v <= usize::MAX,
            k <= 4 ==> weight == group_weight(k as int),
            first == b@[0] as int % (prefix_max(n) + 1),
            first == prefix_max(n),
            match int_tail(b@.skip(1), first as int, 0) {
                Ok((value, u)) => int_tail(rest@, v as int, k as int) == Ok::<
                    (usize, int),
                    HpackError,
                >((value, u - (used - 1))),
                Err(e) => int_tail(rest@, v as int, k as int) == Err::<(usize, int), HpackError>(e),
            },
        decreases rest@.len(),
    {
        if rest.len() == 0 {
            return Err(HpackError::Truncated);
        }
        let c: u8 = rest[0];
        if k > 4 {
            return Err(HpackError::IntOverflow);
        }
        let digit: u64 = (c % 128) as u64;
        assert(digit * weight <= 127 * 268435456) by (nonlinear_arith)
            requires
                digit <= 127,
                weight <= 268435456,
        ;
        let part: u64 = digit * weight;
        if part > usize::MAX as u64 - v {
            return Err(HpackError::IntOverflow);
        }
        v = v + part;
        if c < 128 {
            let ghost before = rest@;
            rest = skip(rest, 1);
            assert(rest@ =~= b@.skip(used + 1));
            return Ok((v as usize, rest));
        }
        let ghost before = rest@;
        rest = skip(rest, 1);
        proof {
            used = used + 1;
            assert(rest@ =~= b@.skip(used));
            assert(before.skip(1) =~= rest@);
        }
        k = k + 1;
        if k <= 4 {
            weight = weight * 128;
        }
    }
}

/// The string at the start of `b`, before any Huffman decoding: whether it is
/// Huffman coded, its raw bytes, and how many bytes it takes altogether.
pub open spec fn raw_string_at(b: Seq<u8>) -> Result<(bool, Seq<u8>, int), HpackError> {
    match int_at(b, 7) {
        Err(e) => Err(e),
        Ok((len, used)) => if len > b.len() - used {
            Err(HpackError::Truncated)
        } else {
            Ok((b[0] >= 128, b.subrange(used, used + len), used + len))
        },
    }
}

/// What a string's bytes are, given whether it is Huffman coded and what its
/// raw bytes decode to.
pub open spec fn string_value_of(
    huff: bool,
    raw: Seq<u8>,
    decoded: Option<Seq<u8>>,
) -> Result<Seq<u8>, HpackError> {
    if !huff {
        Ok(raw)
    } else {
        match decoded {
            Some(v) => Ok(v),
            None => Err(HpackError::Huffman),
        }
    }
}

/// RFC 7541 5.2: the string at the start of `b` and the number of bytes it
/// takes.
pub open spec fn string_at(b: Seq<u8>) -> Result<(Seq<u8>, int), HpackError> {
    match raw_string_at(b) {
        Err(e) => Err(e),
        Ok((huff, raw, used)) => match string_value_of(huff, raw, huffman_decoded(raw)) {
            Ok(v) => Ok((v, used)),
            Err(e) => Err(e),
        },
    }
}

/// A string takes at least one byte and no more than there are.
pub proof fn lemma_string_at_bounds(b: Seq<u8>)
    ensures
        raw_string_at(b) matches Ok((_, _, used)) ==> 1 <= used <= b.len(),
        string_at(b) matches Ok((_, used)) ==> 1 <= used <= b.len(),
{
    lemma_int_at_bounds(b, 7);
}

/// Splits a length-prefixed string off `b`: the Huffman flag, the raw bytes and
/// what follows them.
pub fn split_string(b: &[u8]) -> (r: Result<(bool, &[u8], &[u8]), HpackError>)
    ensures
        match r {
            Ok((huff, raw, rest)) => {
                &&& raw_string_at(b@) matches Ok((h, s, used))
                &&& huff == h
                &&& raw@ == s
                &&& rest@ == b@.skip(used)
            },
            Err(e) => raw_string_at(b@) == Err::<(bool, Seq<u8>, int), HpackError>(e),
        },
{
    proof {
        lemma_int_at_bounds(b@, 7);
    }
    match read_int(b, 7) {
        Err(e) => Err(e),
        Ok((len, rest)) => {
            if len > rest.len() {
                return Err(HpackError::Truncated);
            }
            let raw = take(rest, len);
            let after = skip(rest, len);
            let ghost used = int_at(b@, 7)->Ok_0.1;
            assert(raw@ =~= b@.subrange(used, used + len));
            assert(after@ =~= b@.skip(used + len));
            Ok((b[0] >= 128, raw, after))
        },
    }
}

/// The value of a string, given the outcome of Huffman-decoding its raw bytes
/// where it is Huffman coded.
pub fn string_value(
    huff: bool,
    raw: &[u8],
    decoded: Result<Vec<u8>, httlib_huffman::DecoderError>,
) -> (r: Result<Vec<u8>, HpackError>)
    ensures
        match string_value_of(
            huff,
            raw@,
            match decoded {
                Ok(v) => Some(v@),
                Err(_) => None,
            },
        ) {
            Ok(v) => r matches Ok(out) && out@ == v,
            Err(e) => r == Err::<Vec<u8>, HpackError>(e),
        },
{
    if !huff {
        return Ok(copy_bytes(raw));
    }
    match decoded {
        Ok(v) => Ok(v),
        Err(_) => Err(HpackError::Huffman),
    }
}

/// RFC 7541 5.2 length-prefixed, optionally Huffman-coded string. Returns the
/// string and the bytes after it.
pub fn read_string(b: &[u8]) -> (r: Result<(Vec<u8>, &[u8]), HpackError>)
    ensures
        match r {
            Ok((s, rest)) => {
                &&& string_at(b@) matches Ok((v, used))
                &&& s@ == v
                &&& rest@ == b@.skip(used)
            },
            Err(e) => string_at(b@) == Err::<(Seq<u8>, int), HpackError>(e),
        },
{
    match split_string(b) {
        Err(e) => Err(e),
        Ok((huff, raw, rest)) => {
            let value = if huff {
                string_value(huff, raw, huffman_decode(raw))
            } else {
                Ok(copy_bytes(raw))
            };
            match value {
                Ok(s) => Ok((s, rest)),
                Err(e) => Err(e),
            }
        },
    }
}

/// The continuation bytes that stand for `v`.
pub open spec fn int_tail_bytes(v: int) -> Seq<u8>
    decreases v,
{
    if v < 128 {
        seq![v as u8]
    } else {
        seq![(v % 128 + 128) as u8] + int_tail_bytes(v / 128)
    }
}

/// The bytes of `v` with an `n`-bit prefix under the given flag bits.
pub open spec fn int_bytes(v: int, n: u8, flags: u8) -> Seq<u8> {
    if v < prefix_max(n) {
        seq![flags | (v as u8)]
    } else {
        seq![flags | (prefix_max(n) as u8)] + int_tail_bytes(v - prefix_max(n))
    }
}

/// Appends a variable length integer with an N-bit prefix.
pub fn write_int(out: &mut Vec<u8>, v: usize, n: u8, flags: u8)
    requires
        1 <= n <= 8,
    ensures
        final(out)@ == old(out)@ + int_bytes(v as int, n, flags),
{
    let max: u8 = mask_of(n);
    if v < max as usize {
        out.push(flags | (v as u8));
        assert(out@ =~= old(out)@ + int_bytes(v as int, n, flags));
        return;
    }
    out.push(flags | max);
    let mut left: usize = v - max as usize;
    let ghost start = out@;
    while left >= 128
        invariant
            v >= max,
            start + int_tail_bytes(v - max) == out@ + int_tail_bytes(left as int),
        decreases left,
    {
        let ghost before = out@;
        let low: u8 = (left % 128) as u8;
        out.push(low + 128);
        assert(before + int_tail_bytes(left as int) =~= out@ + int_tail_bytes(left as int / 128));
        left = left / 128;
    }
    let ghost before = out@;
    out.push(left as u8);
    assert(before + int_tail_bytes(left as int) =~= out@);
    assert(out@ =~= old(out)@ + int_bytes(v as int, n, flags));
}

/// The bytes of an uncompressed length-prefixed string.
pub open spec fn string_bytes(s: Seq<u8>) -> Seq<u8> {
    int_bytes(s.len() as int, 7, 0) + s
}

/// Appends a length-prefixed string, not Huffman coded.
pub fn write_string(out: &mut Vec<u8>, s: &[u8])
    ensures
        final(out)@ == old(out)@ + string_bytes(s@),
{
    // High bit clear: not Huffman coded.
    write_int(out, s.len(), 7, 0x00);
    push_all(out, s);
    assert(out@ =~= old(out)@ + string_bytes(s@));
}

} // verus!
