//! Frame flags.
use vstd::prelude::*;

verus! {

pub const END_STREAM: u8 = 0x01;

pub const ACK: u8 = 0x01;

pub const END_HEADERS: u8 = 0x04;

pub const PADDED: u8 = 0x08;

pub const PRIORITY: u8 = 0x20;

} // verus!
