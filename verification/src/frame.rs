//! HTTP/2 frame layer (RFC 9113 section 4-6).
use vstd::prelude::*;

use crate::bytes::{be16, be16_at, be32, be32_at, be32_bytes, push_all, push_be32, skip};

pub mod flags;
pub mod laws;

verus! {

pub const FRAME_HEADER_LEN: usize = 9;

/// "PRI * HTTP/2.0\r\n\r\nSM\r\n\r\n"
pub const PREFACE: [u8; 24] = [
    0x50,
    0x52,
    0x49,
    0x20,
    0x2a,
    0x20,
    0x48,
    0x54,
    0x54,
    0x50,
    0x2f,
    0x32,
    0x2e,
    0x30,
    0x0d,
    0x0a,
    0x0d,
    0x0a,
    0x53,
    0x4d,
    0x0d,
    0x0a,
    0x0d,
    0x0a,
];

pub const DEFAULT_MAX_FRAME_SIZE: usize = 16_384;

pub const SETTINGS_HEADER_TABLE_SIZE: u16 = 0x1;

/// Largest frame length we will treat as plausible while hunting for a frame
/// boundary. Real SETTINGS_MAX_FRAME_SIZE can reach 16 MiB, but accepting that
/// during resync makes the scan far too permissive.
pub const MAX_PLAUSIBLE_FRAME: u32 = 1_048_576;

/// The frame types.
pub struct FrameType;

impl FrameType {
    pub const DATA: u8 = 0x0;

    pub const HEADERS: u8 = 0x1;

    pub const PRIORITY: u8 = 0x2;

    pub const RST_STREAM: u8 = 0x3;

    pub const SETTINGS: u8 = 0x4;

    pub const PUSH_PROMISE: u8 = 0x5;

    pub const PING: u8 = 0x6;

    pub const GOAWAY: u8 = 0x7;

    pub const WINDOW_UPDATE: u8 = 0x8;

    pub const CONTINUATION: u8 = 0x9;

    /// The name of a frame type.
    pub fn name(t: u8) -> (r: &'static str)
        ensures
            r@ == frame_type_name(t),
    {
        if t == Self::DATA {
            "DATA"
        } else if t == Self::HEADERS {
            "HEADERS"
        } else if t == Self::PRIORITY {
            "PRIORITY"
        } else if t == Self::RST_STREAM {
            "RST_STREAM"
        } else if t == Self::SETTINGS {
            "SETTINGS"
        } else if t == Self::PUSH_PROMISE {
            "PUSH_PROMISE"
        } else if t == Self::PING {
            "PING"
        } else if t == Self::GOAWAY {
            "GOAWAY"
        } else if t == Self::WINDOW_UPDATE {
            "WINDOW_UPDATE"
        } else if t == Self::CONTINUATION {
            "CONTINUATION"
        } else {
            "UNKNOWN"
        }
    }
}

/// What a frame type is called.
pub open spec fn frame_type_name(t: u8) -> Seq<char> {
    match t {
        0 => "DATA"@,
        1 => "HEADERS"@,
        2 => "PRIORITY"@,
        3 => "RST_STREAM"@,
        4 => "SETTINGS"@,
        5 => "PUSH_PROMISE"@,
        6 => "PING"@,
        7 => "GOAWAY"@,
        8 => "WINDOW_UPDATE"@,
        9 => "CONTINUATION"@,
        _ => "UNKNOWN"@,
    }
}

/// A frame header.
#[derive(Debug, Clone, Copy, PartialEq, Eq, Structural)]
pub struct FrameHeader {
    pub len: u32,
    pub typ: u8,
    pub flags: u8,
    pub stream_id: u32,
}

/// The frame header that the first nine bytes of `b` stand for. The top bit of
/// the stream id is reserved and ignored.
pub open spec fn header_at(b: Seq<u8>) -> FrameHeader {
    FrameHeader {
        len: (b[0] * 65536 + b[1] * 256 + b[2]) as u32,
        typ: b[3],
        flags: b[4],
        stream_id: (be32_at(b, 5) % 0x8000_0000) as u32,
    }
}

/// The nine bytes of a frame header. The length has room for 24 bits, the
/// stream id for 31.
pub open spec fn header_bytes(h: FrameHeader) -> Seq<u8> {
    seq![
        ((h.len / 65536) % 256) as u8,
        ((h.len / 256) % 256) as u8,
        (h.len % 256) as u8,
        h.typ,
        h.flags,
    ] + be32_bytes((h.stream_id % 0x8000_0000) as u32)
}

impl FrameHeader {
    /// Whether any of the flag bits `f` is set.
    pub open spec fn flagged(&self, f: u8) -> bool {
        self.flags & f != 0
    }

    /// Reads the frame header at the start of `b`.
    pub fn parse(b: &[u8]) -> (r: Option<FrameHeader>)
        ensures
            r == (if b@.len() < 9 {
                None
            } else {
                Some(header_at(b@))
            }),
    {
        if b.len() < FRAME_HEADER_LEN {
            return None;
        }
        let id = be32(skip(b, 5));
        Some(
            FrameHeader {
                len: (b[0] as u32) * 65536 + (b[1] as u32) * 256 + b[2] as u32,
                typ: b[3],
                flags: b[4],
                // Top bit is reserved and must be ignored on receipt.
                stream_id: id % 0x8000_0000,
            },
        )
    }

    /// Appends the frame header.
    pub fn write(&self, out: &mut Vec<u8>)
        ensures
            final(out)@ == old(out)@ + header_bytes(*self),
    {
        out.push(((self.len / 65536) % 256) as u8);
        out.push(((self.len / 256) % 256) as u8);
        out.push((self.len % 256) as u8);
        out.push(self.typ);
        out.push(self.flags);
        push_be32(out, self.stream_id % 0x8000_0000);
        assert(out@ =~= old(out)@ + header_bytes(*self));
    }

    /// The length of the whole frame.
    pub fn total_len(&self) -> (r: usize)
        requires
            9 + self.len <= usize::MAX,
        ensures
            r == 9 + self.len,
    {
        FRAME_HEADER_LEN + self.len as usize
    }

    /// Whether any of the flag bits `f` is set.
    pub fn has(&self, f: u8) -> (r: bool)
        ensures
            r == self.flagged(f),
    {
        self.flags & f != 0
    }
}

/// The bytes of a complete frame. The length field is the low 24 bits of the
/// payload's length.
pub open spec fn frame_bytes(typ: u8, flags: u8, stream_id: u32, payload: Seq<u8>) -> Seq<u8> {
    header_bytes(
        FrameHeader { len: (payload.len() % 0x1_0000_0000) as u32, typ, flags, stream_id },
    ) + payload
}

/// Serialize a complete frame.
pub fn build_frame(typ: u8, flags: u8, stream_id: u32, payload: &[u8]) -> (r: Vec<u8>)
    ensures
        r@ == frame_bytes(typ, flags, stream_id, payload@),
{
    let mut out: Vec<u8> = Vec::new();
    let len: u32 = (payload.len() as u64 % 0x1_0000_0000) as u32;
    let h = FrameHeader { len, typ, flags, stream_id };
    h.write(&mut out);
    push_all(&mut out, payload);
    assert(out@ =~= frame_bytes(typ, flags, stream_id, payload@));
    out
}

/// The bytes of a padded payload between `fixed` leading bytes, which follow the
/// pad length, and the padding. `None` where the payload is too short for them.
pub open spec fn unpadded(h: FrameHeader, payload: Seq<u8>, fixed: int) -> Option<Seq<u8>> {
    let start = fixed + if h.flagged(flags::PADDED) {
        1int
    } else {
        0
    };
    let pad = if h.flagged(flags::PADDED) && payload.len() > 0 {
        payload[0] as int
    } else {
        0
    };
    if start + pad > payload.len() {
        None
    } else {
        Some(payload.subrange(start, payload.len() - pad))
    }
}

/// The bytes that stand before the header block fragment, not counting the pad
/// length: the priority fields, or the promised stream id.
pub open spec fn fragment_prefix(h: FrameHeader) -> int {
    if h.typ == FrameType::HEADERS && h.flagged(flags::PRIORITY) {
        5
    } else if h.typ == FrameType::PUSH_PROMISE {
        4
    } else {
        0
    }
}

/// The header block fragment of a HEADERS or PUSH_PROMISE frame.
pub open spec fn fragment_of(h: FrameHeader, payload: Seq<u8>) -> Option<Seq<u8>> {
    unpadded(h, payload, fragment_prefix(h))
}

fn strip<'a>(hdr: &FrameHeader, payload: &'a [u8], fixed: usize) -> (r: Option<&'a [u8]>)
    requires
        fixed <= 5,
    ensures
        match r {
            Some(s) => unpadded(*hdr, payload@, fixed as int) == Some(s@),
            None => unpadded(*hdr, payload@, fixed as int) is None,
        },
{
    let mut start: usize = fixed;
    let mut pad: usize = 0;
    if hdr.has(flags::PADDED) {
        start = start + 1;
        if payload.len() > 0 {
            pad = payload[0] as usize;
        }
    }
    if start + pad > payload.len() {
        return None;
    }
    Some(vstd::slice::slice_subrange(payload, start, payload.len() - pad))
}

/// Strip padding, priority and (for PUSH_PROMISE) the promised stream id,
/// leaving just the header block fragment.
pub fn header_block_fragment<'a>(hdr: &FrameHeader, payload: &'a [u8]) -> (r: Option<&'a [u8]>)
    ensures
        match r {
            Some(s) => fragment_of(*hdr, payload@) == Some(s@),
            None => fragment_of(*hdr, payload@) is None,
        },
{
    let fixed: usize = if hdr.typ == FrameType::HEADERS && hdr.has(flags::PRIORITY) {
        5
    } else if hdr.typ == FrameType::PUSH_PROMISE {
        4
    } else {
        0
    };
    strip(hdr, payload, fixed)
}

/// The DATA payload with padding removed.
pub fn data_payload<'a>(hdr: &FrameHeader, payload: &'a [u8]) -> (r: Option<&'a [u8]>)
    ensures
        match r {
            Some(s) => unpadded(*hdr, payload@, 0) == Some(s@),
            None => unpadded(*hdr, payload@, 0) is None,
        },
{
    strip(hdr, payload, 0)
}

/// The value that the last of the first `n` six-byte settings with the table
/// size id carries.
pub open spec fn last_table_size(payload: Seq<u8>, n: nat) -> Option<u32>
    decreases n,
{
    if n == 0 {
        None
    } else if be16_at(payload, 6 * (n - 1)) == SETTINGS_HEADER_TABLE_SIZE {
        Some(be32_at(payload, 6 * (n - 1) + 2) as u32)
    } else {
        last_table_size(payload, (n - 1) as nat)
    }
}

/// The header table size that a frame advertises.
pub open spec fn advertised_table_size(h: FrameHeader, payload: Seq<u8>) -> Option<u32> {
    if h.typ != FrameType::SETTINGS || h.flagged(flags::ACK) {
        None
    } else {
        last_table_size(payload, payload.len() / 6)
    }
}

/// Pull SETTINGS_HEADER_TABLE_SIZE out of a SETTINGS payload, if present.
/// This bounds the *peer's* encoder, so it caps the decoder for the opposite
/// direction of the connection.
pub fn settings_header_table_size(hdr: &FrameHeader, payload: &[u8]) -> (r: Option<u32>)
    ensures
        r == advertised_table_size(*hdr, payload@),
{
    if hdr.typ != FrameType::SETTINGS || hdr.has(flags::ACK) {
        return None;
    }
    let mut found: Option<u32> = None;
    let len: usize = payload.len();
    let n: usize = len / 6;
    let mut i: usize = 0;
    while i < n
        invariant
            i <= n,
            len == payload@.len(),
            n == len / 6,
            found == last_table_size(payload@, i as nat),
        decreases n - i,
    {
        let e = skip(payload, 6 * i);
        let id = be16(e);
        if id == SETTINGS_HEADER_TABLE_SIZE {
            found = Some(be32(skip(e, 2)));
        }
        i += 1;
    }
    found
}

/// Does a single frame header look structurally valid?
///
/// The stream-id and length constraints per frame type are what make resync
/// reliable: random DATA bytes almost never satisfy them.
pub open spec fn plausible(h: FrameHeader) -> bool {
    &&& h.typ <= 0x0c
    &&& h.len <= MAX_PLAUSIBLE_FRAME
    &&& match h.typ {
        0 | 1 | 9 => h.stream_id != 0,
        2 => h.stream_id != 0 && h.len == 5,
        3 => h.stream_id != 0 && h.len == 4,
        4 => h.stream_id == 0 && h.len % 6 == 0,
        5 => h.stream_id != 0 && h.len >= 4,
        6 => h.stream_id == 0 && h.len == 8,
        7 => h.stream_id == 0 && h.len >= 8,
        8 => h.len == 4,
        _ => true,
    }
}

fn frame_header_plausible(h: &FrameHeader) -> (r: bool)
    ensures
        r == plausible(*h),
{
    if h.typ > 0x0c || h.len > MAX_PLAUSIBLE_FRAME {
        return false;
    }
    if h.typ == FrameType::DATA || h.typ == FrameType::HEADERS || h.typ
        == FrameType::CONTINUATION {
        h.stream_id != 0
    } else if h.typ == FrameType::PRIORITY {
        h.stream_id != 0 && h.len == 5
    } else if h.typ == FrameType::RST_STREAM {
        h.stream_id != 0 && h.len == 4
    } else if h.typ == FrameType::SETTINGS {
        h.stream_id == 0 && h.len % 6 == 0
    } else if h.typ == FrameType::PUSH_PROMISE {
        h.stream_id != 0 && h.len >= 4
    } else if h.typ == FrameType::PING {
        h.stream_id == 0 && h.len == 8
    } else if h.typ == FrameType::GOAWAY {
        h.stream_id == 0 && h.len >= 8
    } else if h.typ == FrameType::WINDOW_UPDATE {
        h.len == 4
    } else {
        true
    }
}

/// Outcome of testing a candidate frame boundary.
#[derive(Debug, Clone, Copy, PartialEq, Eq, Structural)]
pub enum ChainCheck {
    /// `want` frames chained cleanly, or we ran out of data after at least
    /// `min_accept` of them.
    Accept,
    /// Not a frame boundary.
    Bad,
    /// Plausible so far but we need more bytes to be confident.
    NeedMore,
}

/// The outcome for a chain of which `seen` frames were plausible and the next
/// one starts at `off`.
pub open spec fn chain_from(
    b: Seq<u8>,
    off: int,
    seen: nat,
    want: nat,
    min_accept: nat,
) -> ChainCheck
    decreases want - seen,
{
    if seen >= want {
        ChainCheck::Accept
    } else if off + 9 > b.len() {
        if seen >= min_accept {
            ChainCheck::Accept
        } else {
            ChainCheck::NeedMore
        }
    } else {
        let h = header_at(b.skip(off));
        if !plausible(h) {
            ChainCheck::Bad
        } else {
            chain_from(b, off + 9 + h.len, seen + 1, want, min_accept)
        }
    }
}

/// Walk a candidate frame chain starting at `b`.
pub fn check_frame_chain(b: &[u8], want: usize, min_accept: usize) -> (r: ChainCheck)
    ensures
        r == chain_from(b@, 0, 0, want as nat, min_accept as nat),
{
    let mut off: usize = 0;
    let mut ok: usize = 0;
    while ok < want
        invariant
            ok <= want,
            off <= b@.len(),
            chain_from(b@, 0, 0, want as nat, min_accept as nat) == chain_from(
                b@,
                off as int,
                ok as nat,
                want as nat,
                min_accept as nat,
            ),
        decreases want - ok,
    {
        if b.len() - off < FRAME_HEADER_LEN {
            return if ok >= min_accept {
                ChainCheck::Accept
            } else {
                ChainCheck::NeedMore
            };
        }
        let h = match FrameHeader::parse(skip(b, off)) {
            Some(h) => h,
            None => return ChainCheck::Bad,
        };
        if !frame_header_plausible(&h) {
            return ChainCheck::Bad;
        }
        let total = h.total_len();
        proof {
            let next = off + 9 + h.len;
            assert(chain_from(b@, off as int, ok as nat, want as nat, min_accept as nat)
                == chain_from(b@, next, (ok + 1) as nat, want as nat, min_accept as nat));
            if next > b@.len() {
                assert(chain_from(b@, next, (ok + 1) as nat, want as nat, min_accept as nat)
                    == chain_from(
                    b@,
                    b@.len() as int,
                    (ok + 1) as nat,
                    want as nat,
                    min_accept as nat,
                ));
            }
        }
        // Past the end is past the end, however far.
        off = if total > b.len() - off {
            b.len()
        } else {
            off + total
        };
        ok += 1;
    }
    ChainCheck::Accept
}

/// A frame header reads back as it was written, if its length fits the field it
/// has. The reserved bit of the stream id reads as clear.
pub proof fn law_header_round_trip(h: FrameHeader, rest: Seq<u8>)
    requires
        h.len < 0x100_0000,
    ensures
        header_bytes(h).len() == 9,
        header_at(header_bytes(h) + rest) == (FrameHeader {
            stream_id: (h.stream_id % 0x8000_0000) as u32,
            ..h
        }),
{
    let b = header_bytes(h) + rest;
    let sid = be32_bytes((h.stream_id % 0x8000_0000) as u32);
    assert(b[0] == h.len / 65536);
    assert(b[1] == (h.len / 256) % 256);
    assert(b[2] == h.len % 256);
    assert(b[5] == sid[0]);
    assert(b[6] == sid[1]);
    assert(b[7] == sid[2]);
    assert(b[8] == sid[3]);
}

/// A frame reads back as it was built: its header says how long it is, and the
/// payload stands behind it. The reserved bit of the stream id reads as clear.
pub proof fn law_frame_round_trip(typ: u8, flags: u8, stream_id: u32, payload: Seq<u8>)
    requires
        payload.len() < 0x100_0000,
    ensures
        ({
            let b = frame_bytes(typ, flags, stream_id, payload);
            &&& b.len() == 9 + payload.len()
            &&& header_at(b) == (FrameHeader {
                len: payload.len() as u32,
                typ,
                flags,
                stream_id: (stream_id % 0x8000_0000) as u32,
            })
            &&& b.subrange(9, b.len() as int) == payload
        }),
{
    let h = FrameHeader { len: payload.len() as u32, typ, flags, stream_id };
    law_header_round_trip(h, payload);
    let b = frame_bytes(typ, flags, stream_id, payload);
    assert(b.subrange(9, b.len() as int) =~= payload);
}

} // verus!
