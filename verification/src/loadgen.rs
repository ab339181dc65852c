//! Requests for a traffic generator: header blocks that keep a dynamic table
//! busy.
use vstd::prelude::*;

use crate::bytes::push_all;

pub mod laws;

verus! {

/// `n` in decimal digits, with zeros in front to make at least `width` of them.
pub open spec fn padded(n: nat, width: nat) -> Seq<u8>
    decreases n + width,
{
    if n == 0 && width == 0 {
        Seq::empty()
    } else {
        padded(
            n / 10,
            if width > 0 {
                (width - 1) as nat
            } else {
                0
            },
        ).push((48 + n % 10) as u8)
    }
}

/// What the name of the new field starts with: "x-load-".
pub open spec fn name_stem() -> Seq<u8> {
    seq![0x78u8, 0x2d, 0x6c, 0x6f, 0x61, 0x64, 0x2d]
}

/// What its value starts with: "imsi-".
pub open spec fn value_stem() -> Seq<u8> {
    seq![0x69u8, 0x6d, 0x73, 0x69, 0x2d]
}

/// The header block of request `n`: GET, https and / from the static table, a
/// new field for the dynamic table, and a reference to that same field.
pub open spec fn request_bytes(n: u64) -> Seq<u8> {
    let name = name_stem() + padded((n % 1000) as nat, 6);
    let value = value_stem() + padded(n as nat, 15);
    seq![0x82u8, 0x87, 0x84, 0x40] + seq![name.len() as u8] + name + seq![value.len() as u8] + value
        + seq![0xbeu8]
}

/// Appends the padded digits of `n`.
fn push_padded(out: &mut Vec<u8>, n: u64, width: u8)
    ensures
        final(out)@ == old(out)@ + padded(n as nat, width as nat),
    decreases n + width,
{
    if n == 0 && width == 0 {
        assert(out@ =~= old(out)@ + padded(0, 0));
        return;
    }
    push_padded(
        out,
        n / 10,
        if width > 0 {
            width - 1
        } else {
            0
        },
    );
    out.push(48 + (n % 10) as u8);
    assert(out@ =~= old(out)@ + padded(n as nat, width as nat));
}

/// One request: indexed pseudo-headers, one insertion to churn the dynamic table,
/// and one reference back into it.
pub fn request_block(n: u64) -> (r: Vec<u8>)
    ensures
        r@ == request_bytes(n),
{
    let mut name: Vec<u8> = vec![0x78, 0x2d, 0x6c, 0x6f, 0x61, 0x64, 0x2d];
    push_padded(&mut name, n % 1000, 6);
    let mut value: Vec<u8> = vec![0x69, 0x6d, 0x73, 0x69, 0x2d];
    push_padded(&mut value, n, 15);
    assert(name@ =~= name_stem() + padded((n % 1000) as nat, 6));
    assert(value@ =~= value_stem() + padded(n as nat, 15));
    let mut out: Vec<u8> = vec![0x82, 0x87, 0x84, 0x40];
    out.push(name.len() as u8);
    push_all(&mut out, &name);
    out.push(value.len() as u8);
    push_all(&mut out, &value);
    out.push(0xbe);
    assert(out@ =~= request_bytes(n));
    out
}

} // verus!
