//! Header blocks written out as literals.
//!
//! A block that is encoded here needs no dynamic table at all to be read: every
//! direction that stands at a frame boundary decodes it to the same header list,
//! and its table stays as it was.
use vstd::prelude::*;

use crate::bytes::{add64, be32_bytes, push_all, push_be32, skip, sub64, take};
use crate::conn::framing::longer;
use crate::conn::laws::lemma_parsed_unfolds;
use crate::conn::{
    block_finished, frame_handled, frame_step, keeps_payload, parse_step, parsed, promised_in,
    BlockKind, DecodedBlock, DecodedBlockView, DirectionView, ProcessedFrameView, StepView,
};
use crate::frame::{
    build_frame, flags, frame_bytes, header_at, header_bytes, law_header_round_trip, FrameHeader,
    FrameType,
};
use crate::hpack::laws::{encodable_field, law_literal_block_is_stateless, resolved_fields};
use crate::hpack::{block_decoded, claims_exact, encode_literal, literal_block};
use crate::reassembly::consumed;

verus! {

/// What the frames of an encoded block carry: the promised stream id of a
/// PUSH_PROMISE, then the literals.
pub open spec fn block_body(b: DecodedBlockView) -> Seq<u8> {
    (if b.kind == BlockKind::PushPromise && b.promised_stream_id is Some {
        be32_bytes((b.promised_stream_id->Some_0 % 0x8000_0000) as u32)
    } else {
        Seq::empty()
    }) + literal_block(b.fields)
}

/// The type of an encoded block's first frame.
pub open spec fn block_type(b: DecodedBlockView) -> u8 {
    if b.kind == BlockKind::PushPromise {
        FrameType::PUSH_PROMISE
    } else {
        FrameType::HEADERS
    }
}

/// The flags of an encoded block's first frame, but for END_HEADERS. PADDED and
/// PRIORITY are dropped: the padding is gone and the priority bytes were
/// stripped before decoding, so keeping the flags would lie.
pub open spec fn block_flags(b: DecodedBlockView) -> u8 {
    if b.end_stream && b.kind != BlockKind::PushPromise {
        flags::END_STREAM
    } else {
        0
    }
}

/// The frames that carry `body`: one of type `typ`, then CONTINUATION frames, at
/// most `max` bytes each. The last one ends the block.
pub open spec fn cut_into_frames(
    typ: u8,
    base: u8,
    stream_id: u32,
    body: Seq<u8>,
    max: nat,
) -> Seq<Seq<u8>>
    decreases body.len(),
{
    if body.len() <= max || max == 0 {
        seq![frame_bytes(typ, base | flags::END_HEADERS, stream_id, body)]
    } else {
        seq![frame_bytes(typ, base, stream_id, body.take(max as int))] + cut_into_frames(
            FrameType::CONTINUATION,
            0,
            stream_id,
            body.skip(max as int),
            max,
        )
    }
}

/// The frames of an encoded block.
pub open spec fn block_frames(b: DecodedBlockView, max_frame: usize) -> Seq<Seq<u8>> {
    cut_into_frames(
        block_type(b),
        block_flags(b),
        b.stream_id,
        block_body(b),
        if max_frame == 0 {
            1
        } else {
            max_frame as nat
        },
    )
}

/// The byte strings of a list, one by one.
pub open spec fn strings_view(s: Seq<Vec<u8>>) -> Seq<Seq<u8>> {
    Seq::new(s.len(), |i: int| s[i]@)
}

/// Re-encode a decoded block as literal-only HEADERS (plus CONTINUATION when
/// it no longer fits in one frame).
pub fn encode_block(blk: &DecodedBlock, max_frame: usize) -> (r: Vec<Vec<u8>>)
    ensures
        strings_view(r@) == block_frames(blk@, max_frame),
{
    let push: bool = blk.kind == BlockKind::PushPromise;
    let mut body: Vec<u8> = Vec::new();
    if push {
        if let Some(p) = blk.promised_stream_id {
            push_be32(&mut body, p % 0x8000_0000);
        }
    }
    push_all(&mut body, &encode_literal(&blk.fields));
    assert(body@ =~= block_body(blk@));
    // PADDED and PRIORITY are dropped: the padding is gone and the priority
    // bytes were stripped before decoding, so keeping the flags would lie.
    let base_flags: u8 = if blk.end_stream && !push {
        flags::END_STREAM
    } else {
        0
    };
    let max: usize = if max_frame == 0 {
        1
    } else {
        max_frame
    };
    let mut out: Vec<Vec<u8>> = Vec::new();
    let mut typ: u8 = if push {
        FrameType::PUSH_PROMISE
    } else {
        FrameType::HEADERS
    };
    let mut base: u8 = base_flags;
    let mut rest = body.as_slice();
    let ghost all = block_frames(blk@, max_frame);
    assert(strings_view(out@) + all =~= all);
    while rest.len() > max
        invariant
            max > 0,
            all == strings_view(out@) + cut_into_frames(
                typ,
                base,
                blk.stream_id,
                rest@,
                max as nat,
            ),
        decreases rest@.len(),
    {
        let chunk = take(rest, max);
        let frame: Vec<u8> = build_frame(typ, base, blk.stream_id, chunk);
        let ghost before = strings_view(out@);
        let ghost after = cut_into_frames(
            FrameType::CONTINUATION,
            0,
            blk.stream_id,
            rest@.skip(max as int),
            max as nat,
        );
        let ghost fv = frame@;
        out.push(frame);
        assert(strings_view(out@) =~= before.push(fv));
        assert(before + (seq![fv] + after) =~= strings_view(out@) + after);
        typ = FrameType::CONTINUATION;
        base = 0;
        rest = skip(rest, max);
    }
    let ghost before = strings_view(out@);
    let last: Vec<u8> = build_frame(typ, base | flags::END_HEADERS, blk.stream_id, rest);
    let ghost lv = last@;
    out.push(last);
    assert(strings_view(out@) =~= before.push(lv));
    assert(before + seq![lv] =~= before.push(lv));
    out
}

/// The byte strings one after the other.
pub open spec fn joined(s: Seq<Seq<u8>>) -> Seq<u8>
    decreases s.len(),
{
    if s.len() == 0 {
        Seq::empty()
    } else {
        s[0] + joined(s.skip(1))
    }
}

// ---------------------------------------------------------------------------
// Reading encoded blocks
// ---------------------------------------------------------------------------

/// Whether a direction is about to take a frame, with no header block open.
pub open spec fn ready(d: DirectionView) -> bool {
    &&& !d.desynced
    &&& !d.expect_preface
    &&& d.pending_start_seq is None
    &&& d.discard == 0
    &&& d.block_hdr is None
    &&& d.block.len() == 0
    &&& d.block_promised is None
}

/// Whether a direction stands at a frame boundary with no header block open and
/// no bytes at hand.
pub open spec fn at_boundary(d: DirectionView) -> bool {
    ready(d) && d.reasm.avail.len() == 0
}

/// Whether a direction in state `d` first takes the frames `fs` and is then in
/// state `e`, in which it goes on.
pub open spec fn takes(d: DirectionView, fs: Seq<ProcessedFrameView>, e: DirectionView) -> bool {
    parsed(d) == (parsed(e).0, fs + parsed(e).1)
}

/// Whether the frames carry header fragments, and only the last of them
/// completes a block.
pub open spec fn one_block(fs: Seq<ProcessedFrameView>) -> bool {
    &&& fs.len() > 0
    &&& forall|i: int|
        0 <= i < fs.len() ==> (#[trigger] fs[i]).is_header_frame && !fs[i].truncated
    &&& forall|i: int| 0 <= i < fs.len() - 1 ==> (#[trigger] fs[i]).decoded is None
}

/// Whether a block can be written: its fields can, its stream ids are valid
/// ones, and a PUSH_PROMISE has one to promise.
pub open spec fn encodable_block(b: DecodedBlockView) -> bool {
    &&& b.stream_id < 0x8000_0000
    &&& forall|i: int| 0 <= i < b.fields.len() ==> encodable_field(#[trigger] b.fields[i])
    &&& b.kind == BlockKind::PushPromise ==> (b.promised_stream_id is Some
        && b.promised_stream_id->Some_0 < 0x8000_0000)
}

/// The block that a reader in state `d` gets.
pub open spec fn block_as_read(d: DirectionView, b: DecodedBlockView) -> DecodedBlockView {
    let push = b.kind == BlockKind::PushPromise;
    DecodedBlockView {
        stream_id: b.stream_id,
        fields: resolved_fields(b.fields),
        end_stream: b.end_stream && !push,
        kind: if push {
            BlockKind::PushPromise
        } else if d.open_streams.contains(b.stream_id) {
            BlockKind::Trailers
        } else {
            BlockKind::Headers
        },
        promised_stream_id: if push {
            b.promised_stream_id
        } else {
            None
        },
        exact: claims_exact(d.dec),
        unresolved: 0,
    }
}

proof fn lemma_flag_bits()
    ensures
        (0u8 & 0x04u8) == 0,
        (1u8 & 0x04u8) == 0,
        ((0u8 | 0x04u8) & 0x04u8) != 0,
        ((1u8 | 0x04u8) & 0x04u8) != 0,
        (0u8 & 0x08u8) == 0,
        (1u8 & 0x08u8) == 0,
        ((0u8 | 0x04u8) & 0x08u8) == 0,
        ((1u8 | 0x04u8) & 0x08u8) == 0,
        (0u8 & 0x20u8) == 0,
        (1u8 & 0x20u8) == 0,
        ((0u8 | 0x04u8) & 0x20u8) == 0,
        ((1u8 | 0x04u8) & 0x20u8) == 0,
        (0u8 & 0x01u8) == 0,
        (1u8 & 0x01u8) != 0,
        ((0u8 | 0x04u8) & 0x01u8) == 0,
        ((1u8 | 0x04u8) & 0x01u8) != 0,
{
    assert((0u8 & 0x04u8) == 0 && (1u8 & 0x04u8) == 0 && ((0u8 | 0x04u8) & 0x04u8) != 0 && ((1u8
        | 0x04u8) & 0x04u8) != 0 && (0u8 & 0x08u8) == 0 && (1u8 & 0x08u8) == 0 && ((0u8 | 0x04u8)
        & 0x08u8) == 0 && ((1u8 | 0x04u8) & 0x08u8) == 0 && (0u8 & 0x20u8) == 0 && (1u8 & 0x20u8)
        == 0 && ((0u8 | 0x04u8) & 0x20u8) == 0 && ((1u8 | 0x04u8) & 0x20u8) == 0 && (0u8 & 0x01u8)
        == 0 && (1u8 & 0x01u8) != 0 && ((0u8 | 0x04u8) & 0x01u8) == 0 && ((1u8 | 0x04u8) & 0x01u8)
        != 0) by (bit_vector);
}

/// The header of a frame that carries `chunk`.
spec fn chunk_header(typ: u8, fl: u8, sid: u32, chunk: Seq<u8>) -> FrameHeader {
    FrameHeader { len: chunk.len() as u32, typ, flags: fl, stream_id: sid }
}

/// What stands where in a frame and the bytes behind it.
proof fn lemma_chunk_bytes(
    a: Seq<u8>,
    typ: u8,
    fl: u8,
    sid: u32,
    chunk: Seq<u8>,
    rest: Seq<u8>,
)
    requires
        a == frame_bytes(typ, fl, sid, chunk) + rest,
        chunk.len() <= 1_048_576,
        sid < 0x8000_0000,
    ensures
        a.len() == 9 + chunk.len() + rest.len(),
        header_at(a) == chunk_header(typ, fl, sid, chunk),
        a.subrange(9, 9int + chunk.len()) == chunk,
        a.skip(9int + chunk.len()) == rest,
{
    let hdr = chunk_header(typ, fl, sid, chunk);
    law_header_round_trip(hdr, chunk + rest);
    assert(a =~= header_bytes(hdr) + (chunk + rest));
    assert(a.subrange(9, 9int + chunk.len()) =~= chunk);
    assert(a.skip(9int + chunk.len()) =~= rest);
}

/// The frame that a reader takes off the stream for one chunk.
proof fn lemma_chunk_is_taken(
    d: DirectionView,
    typ: u8,
    fl: u8,
    sid: u32,
    chunk: Seq<u8>,
    rest: Seq<u8>,
)
    requires
        d.discard == 0,
        d.pending_start_seq is None,
        !d.desynced,
        !d.expect_preface,
        d.reasm.avail == frame_bytes(typ, fl, sid, chunk) + rest,
        chunk.len() <= 1_048_576,
        sid < 0x8000_0000,
        typ == FrameType::HEADERS || typ == FrameType::PUSH_PROMISE || typ
            == FrameType::CONTINUATION,
    ensures
        ({
            let hdr = chunk_header(typ, fl, sid, chunk);
            let taken = DirectionView {
                reasm: consumed(d.reasm, 9int + chunk.len()),
                frames: add64(d.frames, 1),
                ..d
            };
            &&& parse_step(d).0 == frame_handled(taken, hdr, chunk).0
            &&& parse_step(d).1 matches StepView::Frame(f)
            &&& f.hdr == hdr
            &&& f.is_header_frame
            &&& !f.truncated
            &&& f.decoded == frame_handled(taken, hdr, chunk).1
            &&& taken.reasm.avail == rest
        }),
{
    let hdr = chunk_header(typ, fl, sid, chunk);
    lemma_chunk_bytes(d.reasm.avail, typ, fl, sid, chunk, rest);
    assert(keeps_payload(d, hdr));
    assert(parse_step(d) == frame_step(d));
}

/// Whether a direction in state `d` takes the rest of a block, `body`, with the
/// frames `fs`, and is then in state `e`.
spec fn continued(
    d: DirectionView,
    first: FrameHeader,
    body: Seq<u8>,
    fs: Seq<ProcessedFrameView>,
    e: DirectionView,
) -> bool {
    let whole = DirectionView { block: d.block + body, ..d };
    let (after, blk) = block_finished(whole, first);
    &&& takes(d, fs, e)
    &&& one_block(fs)
    &&& fs.last().decoded == blk
    &&& e.dec == after.dec
    &&& e.poisoned == d.poisoned
    &&& e.keep_payloads == d.keep_payloads
    &&& ready(e)
}

/// Whether the frame that a direction takes comes first and the rest follow.
proof fn lemma_takes_one_more(
    d: DirectionView,
    f: ProcessedFrameView,
    fs: Seq<ProcessedFrameView>,
    e: DirectionView,
)
    requires
        parse_step(d).1 == StepView::Frame(f),
        takes(parse_step(d).0, fs, e),
    ensures
        takes(d, seq![f] + fs, e),
{
    lemma_parsed_unfolds(d);
    assert(seq![f] + (fs + parsed(e).1) =~= (seq![f] + fs) + parsed(e).1);
}

/// A single frame.
proof fn lemma_takes_one(d: DirectionView, f: ProcessedFrameView)
    requires
        parse_step(d).1 == StepView::Frame(f),
    ensures
        takes(d, seq![f], parse_step(d).0),
{
    lemma_parsed_unfolds(d);
}

/// A direction at a frame boundary without bytes takes nothing.
pub proof fn lemma_idle(d: DirectionView)
    requires
        at_boundary(d),
    ensures
        parsed(d) == (d, Seq::<ProcessedFrameView>::empty()),
{
    lemma_parsed_unfolds(d);
    assert(parse_step(d) == frame_step(d));
}

/// A reader in the midst of a block reads the rest of it off CONTINUATION frames.
/// Gives the frames that it takes and the state that it is then in.
#[verifier::rlimit(40)]
proof fn lemma_continuations_read(
    d: DirectionView,
    first: FrameHeader,
    sid: u32,
    body: Seq<u8>,
    max: nat,
    rest: Seq<u8>,
) -> (r: (Seq<ProcessedFrameView>, DirectionView))
    requires
        d.discard == 0,
        d.pending_start_seq is None,
        !d.desynced,
        !d.expect_preface,
        d.block_hdr == Some(first),
        sid < 0x8000_0000,
        0 < max <= 1_048_576,
        d.reasm.avail == joined(cut_into_frames(FrameType::CONTINUATION, 0, sid, body, max))
            + rest,
        block_decoded(d.dec, d.block + body).1 is Ok,
    ensures
        continued(d, first, body, r.0, r.1),
        r.1.reasm.avail == rest,
    decreases body.len(),
{
    let frames = cut_into_frames(FrameType::CONTINUATION, 0, sid, body, max);
    if body.len() <= max {
        let fb = frame_bytes(FrameType::CONTINUATION, 0u8 | flags::END_HEADERS, sid, body);
        assert(frames.skip(1) =~= Seq::<Seq<u8>>::empty());
        assert(joined(frames.skip(1)) =~= Seq::<u8>::empty());
        assert(frames[0] == fb);
        assert(joined(frames) =~= fb);
        lemma_last_continuation(d, first, sid, body, rest)
    } else {
        let chunk = body.take(max as int);
        let tail = body.skip(max as int);
        let more = cut_into_frames(FrameType::CONTINUATION, 0, sid, tail, max);
        assert(frames.skip(1) =~= more);
        let fb = frame_bytes(FrameType::CONTINUATION, 0, sid, chunk);
        assert(frames[0] == fb);
        assert(d.reasm.avail =~= fb + (joined(more) + rest));
        lemma_one_continuation(d, first, sid, chunk, joined(more) + rest);
        let d1 = parse_step(d).0;
        let f = parse_step(d).1->Frame_0;
        assert(d1.block + tail =~= d.block + body);
        let (fs, e) = lemma_continuations_read(d1, first, sid, tail, max, rest);
        lemma_takes_one_more(d, f, fs, e);
        lemma_one_block_longer(f, fs);
        (seq![f] + fs, e)
    }
}

/// A frame that does not complete a block, before those that do.
proof fn lemma_one_block_longer(f: ProcessedFrameView, fs: Seq<ProcessedFrameView>)
    requires
        f.is_header_frame,
        !f.truncated,
        f.decoded is None,
        one_block(fs),
    ensures
        one_block(seq![f] + fs),
        (seq![f] + fs).last() == fs.last(),
{
    let all = seq![f] + fs;
    assert forall|i: int| 0 <= i < all.len() implies (#[trigger] all[i]).is_header_frame
        && !all[i].truncated by {
        if i > 0 {
            assert(all[i] == fs[i - 1]);
        }
    }
    assert forall|i: int| 0 <= i < all.len() - 1 implies (#[trigger] all[i]).decoded is None by {
        if i > 0 {
            assert(all[i] == fs[i - 1]);
        }
    }
}

/// The CONTINUATION frame that ends a block.
proof fn lemma_last_continuation(
    d: DirectionView,
    first: FrameHeader,
    sid: u32,
    body: Seq<u8>,
    rest: Seq<u8>,
) -> (r: (Seq<ProcessedFrameView>, DirectionView))
    requires
        d.discard == 0,
        d.pending_start_seq is None,
        !d.desynced,
        !d.expect_preface,
        d.block_hdr == Some(first),
        sid < 0x8000_0000,
        body.len() <= 1_048_576,
        d.reasm.avail == frame_bytes(
            FrameType::CONTINUATION,
            0u8 | flags::END_HEADERS,
            sid,
            body,
        ) + rest,
        block_decoded(d.dec, d.block + body).1 is Ok,
    ensures
        continued(d, first, body, r.0, r.1),
        r.1.reasm.avail == rest,
{
    let fl = 0u8 | flags::END_HEADERS;
    lemma_chunk_is_taken(d, FrameType::CONTINUATION, fl, sid, body, rest);
    let hdr = chunk_header(FrameType::CONTINUATION, fl, sid, body);
    let taken = DirectionView {
        reasm: consumed(d.reasm, 9int + body.len()),
        frames: add64(d.frames, 1),
        ..d
    };
    let d1 = parse_step(d).0;
    let f = parse_step(d).1->Frame_0;
    assert(frame_handled(taken, hdr, body) == block_finished(
        DirectionView { block: d.block + body, ..taken },
        first,
    )) by {
        lemma_flag_bits();
        reveal(frame_handled);
    }
    lemma_takes_one(d, f);
    (seq![f], d1)
}

/// A CONTINUATION frame in the midst of a block.
proof fn lemma_one_continuation(
    d: DirectionView,
    first: FrameHeader,
    sid: u32,
    chunk: Seq<u8>,
    rest: Seq<u8>,
)
    requires
        d.discard == 0,
        d.pending_start_seq is None,
        !d.desynced,
        !d.expect_preface,
        d.block_hdr == Some(first),
        sid < 0x8000_0000,
        chunk.len() <= 1_048_576,
        d.reasm.avail == frame_bytes(FrameType::CONTINUATION, 0, sid, chunk) + rest,
    ensures
        ({
            let d1 = DirectionView {
                reasm: consumed(d.reasm, 9int + chunk.len()),
                frames: add64(d.frames, 1),
                block: d.block + chunk,
                ..d
            };
            &&& parse_step(d).0 == d1
            &&& d1.reasm.avail == rest
            &&& parse_step(d).1 matches StepView::Frame(f)
            &&& f.decoded is None
            &&& f.is_header_frame
            &&& !f.truncated
        }),
{
    lemma_chunk_is_taken(d, FrameType::CONTINUATION, 0, sid, chunk, rest);
    lemma_flag_bits();
    reveal(frame_handled);
}

/// Opening a block: what the first chunk of an encoded block does.
proof fn lemma_first_chunk(d: DirectionView, b: DecodedBlockView, fl: u8, chunk: Seq<u8>)
    requires
        ready(d),
        encodable_block(b),
        fl == block_flags(b) || fl == block_flags(b) | flags::END_HEADERS,
        b.kind == BlockKind::PushPromise ==> chunk.len() >= 4 && chunk.take(4) == be32_bytes(
            b.promised_stream_id->Some_0,
        ),
    ensures
        ({
            let hdr = chunk_header(block_type(b), fl, b.stream_id, chunk);
            let push = b.kind == BlockKind::PushPromise;
            let frag = if push {
                chunk.skip(4)
            } else {
                chunk
            };
            let opened = DirectionView {
                block: frag,
                block_hdr: Some(hdr),
                block_promised: if push {
                    b.promised_stream_id
                } else {
                    None
                },
                ..d
            };
            frame_handled(d, hdr, chunk) == (if hdr.flagged(flags::END_HEADERS) {
                block_finished(opened, hdr)
            } else {
                (opened, None)
            })
        }),
{
    lemma_flag_bits();
    reveal(frame_handled);
    let hdr = chunk_header(block_type(b), fl, b.stream_id, chunk);
    let push = b.kind == BlockKind::PushPromise;
    if push {
        let p = b.promised_stream_id->Some_0;
        assert(chunk.subrange(4, chunk.len() as int) =~= chunk.skip(4));
        let q = chunk.take(4);
        assert(q[0] == chunk[0] && q[1] == chunk[1] && q[2] == chunk[2] && q[3] == chunk[3]);
        assert(promised_in(hdr, chunk) == Some(p));
        assert(d.block + chunk.skip(4) =~= chunk.skip(4));
    } else {
        assert(chunk.subrange(0, chunk.len() as int) =~= chunk);
        assert(d.block + chunk =~= chunk);
    }
}

/// What becomes of a block of literals once it is complete.
proof fn lemma_literals_finish(d: DirectionView, b: DecodedBlockView, hdr: FrameHeader)
    requires
        encodable_block(b),
        d.block == literal_block(b.fields),
        hdr.stream_id == b.stream_id,
        hdr.typ == block_type(b),
        hdr.flags == block_flags(b) || hdr.flags == block_flags(b) | flags::END_HEADERS,
        d.block_promised == (if b.kind == BlockKind::PushPromise {
            b.promised_stream_id
        } else {
            None
        }),
    ensures
        block_decoded(d.dec, d.block).1 is Ok,
        block_finished(d, hdr).1 == Some(block_as_read(d, b)),
        block_finished(d, hdr).0.dec == d.dec,
{
    lemma_flag_bits();
    law_literal_block_is_stateless(d.dec, b.fields);
    assert(sub64(d.dec.unresolved, d.dec.unresolved) == 0);
}

/// An encoded block that fits one frame is taken whole.
proof fn lemma_one_frame_taken(d: DirectionView, b: DecodedBlockView, rest: Seq<u8>) -> (r: (
    Seq<ProcessedFrameView>,
    DirectionView,
))
    requires
        ready(d),
        encodable_block(b),
        block_body(b).len() <= 1_048_576,
        d.reasm.avail == frame_bytes(
            block_type(b),
            block_flags(b) | flags::END_HEADERS,
            b.stream_id,
            block_body(b),
        ) + rest,
    ensures
        block_taken(d, b, r.0, r.1),
        r.1.reasm.avail == rest,
{
    lemma_flag_bits();
    let body = block_body(b);
    let lits = literal_block(b.fields);
    let fl = block_flags(b) | flags::END_HEADERS;
    lemma_body_parts(b);
    lemma_chunk_is_taken(d, block_type(b), fl, b.stream_id, body, rest);
    let hdr = chunk_header(block_type(b), fl, b.stream_id, body);
    let taken = DirectionView {
        reasm: consumed(d.reasm, 9int + body.len()),
        frames: add64(d.frames, 1),
        ..d
    };
    lemma_first_chunk(taken, b, fl, body);
    let push = b.kind == BlockKind::PushPromise;
    let opened = DirectionView {
        block: lits,
        block_hdr: Some(hdr),
        block_promised: if push {
            b.promised_stream_id
        } else {
            None
        },
        ..taken
    };
    lemma_literals_finish(opened, b, hdr);
    let f = parse_step(d).1->Frame_0;
    lemma_takes_one(d, f);
    (seq![f], parse_step(d).0)
}

/// The parts of an encoded block's body.
proof fn lemma_body_parts(b: DecodedBlockView)
    requires
        encodable_block(b),
    ensures
        ({
            let body = block_body(b);
            if b.kind == BlockKind::PushPromise {
                body.len() >= 4 && body.skip(4) == literal_block(b.fields) && body.take(4)
                    == be32_bytes(b.promised_stream_id->Some_0)
            } else {
                body == literal_block(b.fields)
            }
        }),
{
    let body = block_body(b);
    if b.kind == BlockKind::PushPromise {
        assert(body.skip(4) =~= literal_block(b.fields));
        assert(body.take(4) =~= be32_bytes(b.promised_stream_id->Some_0));
    } else {
        assert(body =~= literal_block(b.fields));
    }
}

/// An encoded block that needs several frames is taken whole.
proof fn lemma_several_frames_taken(
    d: DirectionView,
    b: DecodedBlockView,
    max: nat,
    rest: Seq<u8>,
) -> (r: (Seq<ProcessedFrameView>, DirectionView))
    requires
        ready(d),
        encodable_block(b),
        0 < max < block_body(b).len(),
        max <= 1_048_576,
        b.kind == BlockKind::PushPromise ==> max >= 4,
        d.reasm.avail == frame_bytes(
            block_type(b),
            block_flags(b),
            b.stream_id,
            block_body(b).take(max as int),
        ) + (joined(
            cut_into_frames(
                FrameType::CONTINUATION,
                0,
                b.stream_id,
                block_body(b).skip(max as int),
                max,
            ),
        ) + rest),
    ensures
        block_taken(d, b, r.0, r.1),
        r.1.reasm.avail == rest,
{
    lemma_flag_bits();
    let push = b.kind == BlockKind::PushPromise;
    let body = block_body(b);
    let lits = literal_block(b.fields);
    let fl = block_flags(b);
    let chunk = body.take(max as int);
    let tail = body.skip(max as int);
    let more = cut_into_frames(FrameType::CONTINUATION, 0, b.stream_id, tail, max);
    lemma_body_parts(b);
    lemma_chunk_is_taken(d, block_type(b), fl, b.stream_id, chunk, joined(more) + rest);
    let hdr = chunk_header(block_type(b), fl, b.stream_id, chunk);
    let taken = DirectionView {
        reasm: consumed(d.reasm, 9int + chunk.len()),
        frames: add64(d.frames, 1),
        ..d
    };
    if push {
        assert(chunk.take(4) =~= body.take(4));
    }
    lemma_first_chunk(taken, b, fl, chunk);
    let d1 = parse_step(d).0;
    let f = parse_step(d).1->Frame_0;
    let frag = if push {
        chunk.skip(4)
    } else {
        chunk
    };
    assert(d1.block == frag);
    assert(frag + tail =~= lits);
    let whole = DirectionView { block: d1.block + tail, ..d1 };
    lemma_literals_finish(whole, b, hdr);
    let (fs, e) = lemma_continuations_read(d1, hdr, b.stream_id, tail, max, rest);
    lemma_takes_one_more(d, f, fs, e);
    lemma_one_block_longer(f, fs);
    (seq![f] + fs, e)
}

/// Whether a direction in state `d` takes the encoded block `b` with the frames
/// `fs` and is then in state `e`: the block comes with the last frame, all of it
/// is resolved, and the table is unchanged.
pub open spec fn block_taken(
    d: DirectionView,
    b: DecodedBlockView,
    fs: Seq<ProcessedFrameView>,
    e: DirectionView,
) -> bool {
    &&& takes(d, fs, e)
    &&& one_block(fs)
    &&& fs.last().decoded == Some(block_as_read(d, b))
    &&& ready(e)
    &&& e.dec == d.dec
    &&& e.poisoned == d.poisoned
    &&& e.keep_payloads == d.keep_payloads
}

/// An encoded block that is followed by other bytes is taken whole.
pub proof fn lemma_encoded_block_taken(
    d: DirectionView,
    b: DecodedBlockView,
    max_frame: usize,
    rest: Seq<u8>,
) -> (r: (Seq<ProcessedFrameView>, DirectionView))
    requires
        ready(d),
        encodable_block(b),
        b.kind == BlockKind::PushPromise ==> max_frame >= 4,
        max_frame <= 1_048_576,
        d.reasm.avail == joined(block_frames(b, max_frame)) + rest,
    ensures
        block_taken(d, b, r.0, r.1),
        r.1.reasm.avail == rest,
{
    let max: nat = if max_frame == 0 {
        1
    } else {
        max_frame as nat
    };
    let body = block_body(b);
    let frames = block_frames(b, max_frame);
    if body.len() <= max {
        let fb = frame_bytes(
            block_type(b),
            block_flags(b) | flags::END_HEADERS,
            b.stream_id,
            body,
        );
        assert(frames.skip(1) =~= Seq::<Seq<u8>>::empty());
        assert(joined(frames.skip(1)) =~= Seq::<u8>::empty());
        assert(frames[0] == fb);
        assert(joined(frames) =~= fb);
        lemma_one_frame_taken(d, b, rest)
    } else {
        let tail = body.skip(max as int);
        let more = cut_into_frames(FrameType::CONTINUATION, 0, b.stream_id, tail, max);
        let fb = frame_bytes(block_type(b), block_flags(b), b.stream_id, body.take(max as int));
        assert(frames.skip(1) =~= more);
        assert(frames[0] == fb);
        assert(d.reasm.avail =~= fb + (joined(more) + rest));
        lemma_several_frames_taken(d, b, max, rest)
    }
}

/// An encoded block reads back: every direction that stands at a frame boundary,
/// whatever its table holds and whatever it claims of it, takes exactly the
/// encoded block off the stream, with the same header list, stream, flags and
/// promised stream, resolves all of it, and ends at a frame boundary with its
/// table unchanged. So the encoded stream can be read from any block on.
pub proof fn law_encoded_block_reads_back(d: DirectionView, b: DecodedBlockView, max_frame: usize)
    requires
        at_boundary(d),
        encodable_block(b),
        b.kind == BlockKind::PushPromise ==> max_frame >= 4,
        max_frame <= 1_048_576,
    ensures
        ({
            let (end, fs) = parsed(longer(d, joined(block_frames(b, max_frame))));
            &&& one_block(fs)
            &&& fs.last().decoded == Some(block_as_read(d, b))
            &&& at_boundary(end)
            &&& end.dec == d.dec
            &&& end.poisoned == d.poisoned
        }),
{
    let bytes = joined(block_frames(b, max_frame));
    let l = longer(d, bytes);
    let none = Seq::<u8>::empty();
    assert(l.reasm.avail =~= bytes + none);
    let (fs, e) = lemma_encoded_block_taken(l, b, max_frame, none);
    lemma_idle(e);
    assert(fs + Seq::<ProcessedFrameView>::empty() =~= fs);
    assert(block_as_read(l, b) == block_as_read(d, b));
}

} // verus!
