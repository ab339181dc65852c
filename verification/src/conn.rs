//! Per-direction HTTP/2 state machine: reassembly -> framing -> HPACK.
//!
//! The live keeper and the offline normalizer both drive this, which is what
//! makes a snapshot taken by one usable by the other. If the two ever framed
//! differently, the `next_frame_seq` in a snapshot would point at a byte the
//! normalizer does not consider a frame boundary and every header after it
//! would decode to plausible nonsense.
use std::collections::HashSet;
use vstd::prelude::*;

use crate::bytes::{
    add32, add64, be32, be32_at, copy_bytes, off_plus, push_all, same_bytes, seq_ahead,
    seq_distance, skip, sub64, take,
};
use crate::conn::laws::{block_in_order, lemma_parsed_unfolds, truthful};
use crate::frame::{
    advertised_table_size, chain_from, check_frame_chain, flags, fragment_of, header_at,
    header_block_fragment, settings_header_table_size, ChainCheck, FrameHeader, FrameType,
    FRAME_HEADER_LEN, PREFACE,
};
use crate::hpack::{
    block_decoded, claims_exact, exact_state, fields_view, forgotten, lemma_unresolved_bound,
    limited, partial_state, table_bytes, Decoder, DecoderView, Field, FieldView,
};
use crate::reassembly::{
    consumed, fresh_reassembler, gapped, hole_expired, pushed, Reassembler, ReassemblerView,
};

pub mod framing;
pub mod laws;
pub mod runs;

verus! {

/// Largest frame payload we will buffer. Beyond this we stay framed but drop
/// the payload rather than let one peer balloon our memory.
pub const MAX_BUFFERED_FRAME: usize = 1_048_576;

/// Buffer we keep while hunting for a frame boundary.
pub const RESYNC_WINDOW: usize = 65_536;

/// Number of streams we remember as open before starting over.
pub const MAX_OPEN_STREAMS: usize = 65_536;

/// What a header block is for.
#[derive(Debug, Clone, Copy, PartialEq, Eq, Structural)]
pub enum BlockKind {
    /// First header block on the stream.
    Headers,
    /// A second header block on a stream, i.e. trailers.
    Trailers,
    PushPromise,
}

/// A header block that decoded.
#[derive(Debug)]
pub struct DecodedBlock {
    pub stream_id: u32,
    pub fields: Vec<Field>,
    pub end_stream: bool,
    pub kind: BlockKind,
    /// Set for PUSH_PROMISE, which carries it ahead of the header block and
    /// therefore has to be reinstated when the block is re-encoded.
    pub promised_stream_id: Option<u32>,
    /// True only if this block decoded with no gaps at all: the dynamic table
    /// was fully known AND no reference in it went unresolved. The table can
    /// become exact partway through a block, so this deliberately does not
    /// track the decoder's own `exact` flag.
    pub exact: bool,
    /// Unresolved index references in this block.
    pub unresolved: usize,
}

/// A decoded header block as a mathematical value.
#[verifier::ext_equal]
pub struct DecodedBlockView {
    pub stream_id: u32,
    pub fields: Seq<FieldView>,
    pub end_stream: bool,
    pub kind: BlockKind,
    pub promised_stream_id: Option<u32>,
    pub exact: bool,
    pub unresolved: int,
}

impl View for DecodedBlock {
    type V = DecodedBlockView;

    open spec fn view(&self) -> DecodedBlockView {
        DecodedBlockView {
            stream_id: self.stream_id,
            fields: fields_view(self.fields@),
            end_stream: self.end_stream,
            kind: self.kind,
            promised_stream_id: self.promised_stream_id,
            exact: self.exact,
            unresolved: self.unresolved as int,
        }
    }
}

/// A frame taken off the stream.
#[derive(Debug)]
pub struct ProcessedFrame {
    pub hdr: FrameHeader,
    pub payload: Vec<u8>,
    /// Stream offset and absolute TCP sequence of the frame's first byte.
    pub start_off: u64,
    pub start_seq: u32,
    /// Set on the frame that completes a header block.
    pub decoded: Option<DecodedBlock>,
    /// HEADERS, CONTINUATION or PUSH_PROMISE: the normalizer replaces these
    /// rather than passing them through.
    pub is_header_frame: bool,
    /// Payload was dropped instead of buffered.
    pub truncated: bool,
    /// SETTINGS_HEADER_TABLE_SIZE advertised here. It bounds the *peer's*
    /// encoder, so the caller applies it to the opposite direction.
    pub settings_table_size: Option<u32>,
}

/// A frame taken off the stream, as a mathematical value.
#[verifier::ext_equal]
pub struct ProcessedFrameView {
    pub hdr: FrameHeader,
    pub payload: Seq<u8>,
    pub start_off: u64,
    pub start_seq: u32,
    pub decoded: Option<DecodedBlockView>,
    pub is_header_frame: bool,
    pub truncated: bool,
    pub settings_table_size: Option<u32>,
}

impl View for ProcessedFrame {
    type V = ProcessedFrameView;

    open spec fn view(&self) -> ProcessedFrameView {
        ProcessedFrameView {
            hdr: self.hdr,
            payload: self.payload@,
            start_off: self.start_off,
            start_seq: self.start_seq,
            decoded: match self.decoded {
                Some(b) => Some(b@),
                None => None,
            },
            is_header_frame: self.is_header_frame,
            truncated: self.truncated,
            settings_table_size: self.settings_table_size,
        }
    }
}

/// The frames of a list, one by one.
pub open spec fn frames_view(s: Seq<ProcessedFrame>) -> Seq<ProcessedFrameView> {
    Seq::new(s.len(), |i: int| s[i]@)
}

/// The state of a direction as a mathematical value.
#[verifier::ext_equal]
pub struct DirectionView {
    pub reasm: ReassemblerView,
    pub dec: DecoderView,
    /// HPACK state cannot be trusted (a gap or a decode error occurred).
    pub poisoned: bool,
    /// Frame boundaries are unknown; we are hunting for one.
    pub desynced: bool,
    pub frames: u64,
    pub blocks: u64,
    pub decode_errors: u64,
    pub resyncs: u64,
    pub keep_payloads: bool,
    pub expect_preface: bool,
    /// Bytes of a frame payload still to be thrown away.
    pub discard: u64,
    /// Seek target set when seeding from a snapshot.
    pub pending_start_seq: Option<u32>,
    /// We found ourselves past the snapshot point.
    pub snapshot_misaligned: bool,
    /// Bytes skipped because they precede the snapshot point.
    pub pre_snapshot_skipped: u64,
    pub table_track_limit: usize,
    /// Fragments of the open header block, and the frame that opened it.
    pub block: Seq<u8>,
    pub block_hdr: Option<FrameHeader>,
    pub block_promised: Option<u32>,
    pub open_streams: Set<u32>,
}

/// The state of a direction we joined mid-stream.
pub open spec fn midstream_state(keep_payloads: bool) -> DirectionView {
    DirectionView {
        reasm: fresh_reassembler(),
        dec: partial_state(),
        poisoned: false,
        desynced: true,
        frames: 0,
        blocks: 0,
        decode_errors: 0,
        resyncs: 0,
        keep_payloads,
        expect_preface: false,
        discard: 0,
        pending_start_seq: None,
        snapshot_misaligned: false,
        pre_snapshot_skipped: 0,
        table_track_limit: usize::MAX,
        block: Seq::empty(),
        block_hdr: None,
        block_promised: None,
        open_streams: Set::empty(),
    }
}

/// The state of a direction we have from its first byte.
pub open spec fn start_state(keep_payloads: bool, expect_preface: bool) -> DirectionView {
    DirectionView {
        dec: exact_state(),
        desynced: false,
        expect_preface,
        ..midstream_state(keep_payloads)
    }
}

/// The state once a cap on the table's memory is set.
pub open spec fn capped(d: DirectionView, n: usize) -> DirectionView {
    DirectionView {
        table_track_limit: n,
        dec: limited(DecoderView { track_limit: n, ..d.dec }),
        ..d
    }
}

/// The state once a direction is seeded: the table is known in full, and
/// framing restarts at `next_frame_seq`.
pub open spec fn seeded(
    d: DirectionView,
    entries: Seq<FieldView>,
    max_size: usize,
    next_frame_seq: u32,
) -> DirectionView {
    DirectionView {
        dec: limited(
            DecoderView {
                table: entries,
                max_size,
                track_limit: d.table_track_limit,
                ..exact_state()
            },
        ),
        desynced: false,
        poisoned: false,
        expect_preface: false,
        block: Seq::empty(),
        block_hdr: None,
        block_promised: None,
        discard: 0,
        pending_start_seq: Some(next_frame_seq),
        ..d
    }
}

/// The state once bytes are known to be missing.
pub open spec fn gap_noted(d: DirectionView) -> DirectionView {
    DirectionView {
        poisoned: true,
        desynced: true,
        discard: 0,
        block: Seq::empty(),
        block_hdr: None,
        block_promised: None,
        dec: forgotten(d.dec),
        ..d
    }
}

/// The state once a header frame made no sense.
pub open spec fn block_spoiled(d: DirectionView) -> DirectionView {
    DirectionView {
        block: Seq::empty(),
        block_hdr: None,
        block_promised: None,
        poisoned: true,
        desynced: true,
        dec: forgotten(d.dec),
        ..d
    }
}

/// The state once a part of a header block is lost: what that would have made of
/// the table is not known any more. Frame boundaries still are.
pub open spec fn block_lost(d: DirectionView) -> DirectionView {
    DirectionView {
        block: Seq::empty(),
        block_hdr: None,
        block_promised: None,
        poisoned: true,
        dec: forgotten(d.dec),
        ..d
    }
}

/// The state in which a header block is opened. A new block while one is open is a
/// protocol violation; the safe reading is that we lost our place.
pub open spec fn about_to_open(d: DirectionView) -> DirectionView {
    if d.block_hdr is Some {
        block_lost(d)
    } else {
        d
    }
}

/// The state once the payload of a frame was thrown away.
pub open spec fn payload_dropped(d: DirectionView, hdr: FrameHeader) -> DirectionView {
    if carries_headers(hdr.typ) {
        block_lost(d)
    } else {
        d
    }
}

/// The streams that are open once a header block on `sid` has ended.
pub open spec fn streams_after(open: Set<u32>, sid: u32, end_stream: bool) -> Set<u32> {
    if end_stream {
        open.remove(sid)
    } else if open.len() > MAX_OPEN_STREAMS {
        Set::empty().insert(sid)
    } else {
        open.insert(sid)
    }
}

/// Whether no field of the list came from an entry that is not known.
pub open spec fn all_resolved(fields: Seq<FieldView>) -> bool {
    forall|i: int| 0 <= i < fields.len() ==> !(#[trigger] fields[i]).unknown
}

/// What becomes of the header block that `hdr` opened, once it is complete: the
/// state, and the block if it decodes.
pub open spec fn block_finished(d: DirectionView, hdr: FrameHeader) -> (
    DirectionView,
    Option<DecodedBlockView>,
) {
    let closed = DirectionView {
        block_hdr: None,
        block_promised: None,
        block: Seq::empty(),
        blocks: add64(d.blocks, 1),
        ..d
    };
    let (dec, fields) = block_decoded(d.dec, d.block);
    match fields {
        // Framing is probably still fine; it is the table that is now
        // untrustworthy.
        Err(_) => (
            DirectionView {
                decode_errors: add64(d.decode_errors, 1),
                poisoned: true,
                dec: forgotten(dec),
                ..closed
            },
            None,
        ),
        Ok(fields) => {
            let sid = hdr.stream_id;
            let end_stream = hdr.flagged(flags::END_STREAM);
            let push = hdr.typ == FrameType::PUSH_PROMISE;
            let unresolved = sub64(dec.unresolved, d.dec.unresolved) as int;
            (
                DirectionView {
                    dec,
                    open_streams: if push {
                        d.open_streams
                    } else {
                        streams_after(d.open_streams, sid, end_stream)
                    },
                    ..closed
                },
                Some(
                    DecodedBlockView {
                        stream_id: sid,
                        fields,
                        end_stream,
                        kind: if push {
                            BlockKind::PushPromise
                        } else if d.open_streams.contains(sid) {
                            BlockKind::Trailers
                        } else {
                            BlockKind::Headers
                        },
                        promised_stream_id: d.block_promised,
                        exact: claims_exact(dec) && unresolved == 0 && all_resolved(fields),
                        unresolved,
                    },
                ),
            )
        },
    }
}

/// The promised stream id of a PUSH_PROMISE: it sits ahead of the block, after
/// the pad length when the frame is padded.
pub open spec fn promised_in(hdr: FrameHeader, payload: Seq<u8>) -> Option<u32> {
    let p = if hdr.flagged(flags::PADDED) && payload.len() > 0 {
        payload.skip(1)
    } else {
        payload
    };
    if p.len() >= 4 {
        Some((be32_at(p, 0) % 0x8000_0000) as u32)
    } else {
        None
    }
}

/// The state once a HEADERS or PUSH_PROMISE frame has come in, and the block
/// that it completes.
pub open spec fn headers_handled(d: DirectionView, hdr: FrameHeader, payload: Seq<u8>) -> (
    DirectionView,
    Option<DecodedBlockView>,
) {
    match fragment_of(hdr, payload) {
        None => (block_spoiled(d), None),
        Some(frag) => {
            let promised = if hdr.typ == FrameType::PUSH_PROMISE {
                promised_in(hdr, payload)
            } else {
                None
            };
            let opened = DirectionView {
                block: about_to_open(d).block + frag,
                block_hdr: Some(hdr),
                block_promised: promised,
                ..about_to_open(d)
            };
            if hdr.flagged(flags::END_HEADERS) {
                block_finished(opened, hdr)
            } else {
                (opened, None)
            }
        },
    }
}

/// The state once a CONTINUATION frame has come in, and the block that it
/// completes.
pub open spec fn continuation_handled(d: DirectionView, hdr: FrameHeader, payload: Seq<u8>) -> (
    DirectionView,
    Option<DecodedBlockView>,
) {
    match d.block_hdr {
        // CONTINUATION with no open block: we are out of step.
        None => (block_spoiled(d), None),
        Some(first) => {
            let longer = DirectionView { block: d.block + payload, ..d };
            if hdr.flagged(flags::END_HEADERS) {
                block_finished(longer, first)
            } else {
                (longer, None)
            }
        },
    }
}

/// Whether a frame carries header block fragments.
pub open spec fn carries_headers(typ: u8) -> bool {
    typ == FrameType::HEADERS || typ == FrameType::CONTINUATION || typ == FrameType::PUSH_PROMISE
}

/// The state once a complete frame has come in, and the block that it
/// completes.
#[verifier::opaque]
pub open spec fn frame_handled(d: DirectionView, hdr: FrameHeader, payload: Seq<u8>) -> (
    DirectionView,
    Option<DecodedBlockView>,
) {
    if hdr.typ == FrameType::HEADERS || hdr.typ == FrameType::PUSH_PROMISE {
        headers_handled(d, hdr, payload)
    } else if hdr.typ == FrameType::CONTINUATION {
        continuation_handled(d, hdr, payload)
    } else {
        (d, None)
    }
}

/// What one step of parsing comes to.
pub enum StepView {
    /// More bytes are needed.
    Stop,
    /// The state moved on, and no frame came of it.
    Moved,
    /// A frame was taken off the stream.
    Frame(ProcessedFrameView),
}

/// Throwing away the rest of a payload.
pub open spec fn discard_step(d: DirectionView) -> (DirectionView, StepView) {
    let n = if d.discard < d.reasm.avail.len() {
        d.discard as int
    } else {
        d.reasm.avail.len() as int
    };
    if n == 0 {
        (d, StepView::Stop)
    } else {
        (
            DirectionView {
                reasm: consumed(d.reasm, n),
                discard: (d.discard - n) as u64,
                ..d
            },
            StepView::Moved,
        )
    }
}

/// Sequence number of the first unconsumed byte.
pub open spec fn unparsed_seq(r: ReassemblerView) -> u32 {
    add32(r.base_seq, r.buf_off as int)
}

/// Skipping to the snapshot point.
pub open spec fn seek_step(d: DirectionView, target: u32) -> (DirectionView, StepView) {
    let delta = seq_distance(target, unparsed_seq(d.reasm));
    if delta > 0 {
        let n = if delta < d.reasm.avail.len() {
            delta
        } else {
            d.reasm.avail.len() as int
        };
        if n == 0 {
            (d, StepView::Stop)
        } else {
            (
                DirectionView {
                    reasm: consumed(d.reasm, n),
                    pre_snapshot_skipped: add64(d.pre_snapshot_skipped, n),
                    ..d
                },
                StepView::Moved,
            )
        }
    } else if delta < 0 {
        // The capture starts after the snapshot point, so bytes the snapshot
        // assumed we would see are missing. Refuse to pretend the table is
        // right.
        (
            DirectionView {
                snapshot_misaligned: true,
                dec: forgotten(d.dec),
                desynced: true,
                pending_start_seq: None,
                ..d
            },
            StepView::Moved,
        )
    } else {
        (DirectionView { pending_start_seq: None, ..d }, StepView::Moved)
    }
}

/// The first offset from `off` on that may be a frame boundary, and whether
/// four frames chain from it or more bytes are needed to tell.
pub open spec fn boundary_from(a: Seq<u8>, off: int) -> Option<(int, ChainCheck)>
    decreases a.len() - off,
{
    if off + 9 > a.len() {
        None
    } else {
        let check = chain_from(a.skip(off), 0, 0, 4, 2);
        if check == ChainCheck::Bad {
            boundary_from(a, off + 1)
        } else {
            Some((off, check))
        }
    }
}

/// Hunting for a frame boundary.
pub open spec fn resync_step(d: DirectionView) -> (DirectionView, StepView) {
    match boundary_from(d.reasm.avail, 0) {
        Some((off, ChainCheck::Accept)) => (
            DirectionView {
                reasm: consumed(d.reasm, off),
                desynced: false,
                resyncs: add64(d.resyncs, 1),
                ..d
            },
            StepView::Moved,
        ),
        // Plausible but not yet provable. Waiting beats skipping past what is
        // very likely the real boundary.
        Some(_) => (d, StepView::Stop),
        None => if d.reasm.avail.len() > RESYNC_WINDOW {
            // Nothing plausible in a large window; drop the front so the buffer
            // cannot grow without bound.
            (
                DirectionView {
                    reasm: consumed(d.reasm, d.reasm.avail.len() - RESYNC_WINDOW),
                    ..d
                },
                StepView::Stop,
            )
        } else {
            (d, StepView::Stop)
        },
    }
}

/// Taking the connection preface off, where it is there.
pub open spec fn preface_step(d: DirectionView) -> (DirectionView, StepView) {
    if d.reasm.avail.len() < 24 {
        (d, StepView::Stop)
    } else {
        (
            DirectionView {
                expect_preface: false,
                reasm: if d.reasm.avail.take(24) == PREFACE@ {
                    consumed(d.reasm, 24)
                } else {
                    d.reasm
                },
                ..d
            },
            StepView::Moved,
        )
    }
}

/// Whether the payload of a frame is kept until it is complete.
pub open spec fn keeps_payload(d: DirectionView, hdr: FrameHeader) -> bool {
    &&& d.keep_payloads || carries_headers(hdr.typ) || hdr.typ == FrameType::SETTINGS
    &&& hdr.len <= MAX_BUFFERED_FRAME
}

/// Taking a frame off the stream.
pub open spec fn frame_step(d: DirectionView) -> (DirectionView, StepView) {
    let a = d.reasm.avail;
    if a.len() < 9 {
        (d, StepView::Stop)
    } else {
        let hdr = header_at(a);
        let counted = DirectionView { frames: add64(d.frames, 1), ..d };
        let bare = ProcessedFrameView {
            hdr,
            payload: Seq::empty(),
            start_off: d.reasm.buf_off,
            start_seq: unparsed_seq(d.reasm),
            decoded: None,
            is_header_frame: carries_headers(hdr.typ),
            truncated: true,
            settings_table_size: None,
        };
        if !keeps_payload(d, hdr) {
            (
                DirectionView {
                    reasm: consumed(d.reasm, 9),
                    discard: hdr.len as u64,
                    ..payload_dropped(counted, hdr)
                },
                StepView::Frame(bare),
            )
        } else if a.len() < 9 + hdr.len {
            (d, StepView::Stop)
        } else {
            let payload = a.subrange(9, 9 + hdr.len);
            let taken = DirectionView { reasm: consumed(d.reasm, 9 + hdr.len), ..counted };
            let (after, decoded) = frame_handled(taken, hdr, payload);
            (
                after,
                StepView::Frame(
                    ProcessedFrameView {
                        payload,
                        decoded,
                        truncated: false,
                        settings_table_size: advertised_table_size(hdr, payload),
                        ..bare
                    },
                ),
            )
        }
    }
}

/// One step of parsing: the first of the things that stand in the way of the
/// next frame is dealt with, or the frame is taken.
pub open spec fn parse_step(d: DirectionView) -> (DirectionView, StepView) {
    if d.discard > 0 {
        discard_step(d)
    } else if d.pending_start_seq is Some {
        seek_step(d, d.pending_start_seq->Some_0)
    } else if d.desynced {
        resync_step(d)
    } else if d.expect_preface {
        preface_step(d)
    } else {
        frame_step(d)
    }
}

/// What is left to do besides consuming bytes, for termination.
pub open spec fn flag(b: bool) -> nat {
    if b {
        1
    } else {
        0
    }
}

/// Handling a frame touches neither the byte stream nor the seeking.
pub proof fn lemma_frame_handled_keeps(d: DirectionView, hdr: FrameHeader, payload: Seq<u8>)
    ensures
        ({
            let after = frame_handled(d, hdr, payload).0;
            &&& after.reasm == d.reasm
            &&& d.poisoned ==> after.poisoned
            &&& after.table_track_limit == d.table_track_limit
            &&& after.keep_payloads == d.keep_payloads
            &&& after.pending_start_seq == d.pending_start_seq
            &&& after.discard == d.discard
            &&& after.expect_preface == d.expect_preface
            &&& after.snapshot_misaligned == d.snapshot_misaligned
        }),
{
    reveal(frame_handled);
}

/// A boundary found lies within the bytes.
pub proof fn lemma_boundary_from(a: Seq<u8>, off: int)
    requires
        0 <= off,
    ensures
        boundary_from(a, off) matches Some((k, c)) ==> off <= k && k + 9 <= a.len() && c
            != ChainCheck::Bad,
    decreases a.len() - off,
{
    if off + 9 <= a.len() {
        lemma_boundary_from(a, off + 1);
    }
}

/// A step that does not stop consumes bytes or settles one of the things that
/// stood in the way.
pub proof fn lemma_step_decreases(d: DirectionView)
    ensures
        ({
            let (after, out) = parse_step(d);
            out !is Stop ==> decreases_to!(
                d.reasm.avail.len(),
                flag(d.pending_start_seq is Some),
                flag(d.desynced),
                flag(d.expect_preface) => after.reasm.avail.len(),
                flag(after.pending_start_seq is Some),
                flag(after.desynced),
                flag(after.expect_preface)
            )
        }),
{
    lemma_boundary_from(d.reasm.avail, 0);
    if d.reasm.avail.len() >= 9 {
        let hdr = header_at(d.reasm.avail);
        let taken = DirectionView {
            reasm: consumed(d.reasm, 9 + hdr.len),
            frames: add64(d.frames, 1),
            ..d
        };
        if 9 + hdr.len <= d.reasm.avail.len() {
            lemma_frame_handled_keeps(taken, hdr, d.reasm.avail.subrange(9, 9 + hdr.len));
        }
    }
}

/// Everything that can be parsed: the state after it and the frames taken.
#[verifier::opaque]
pub open spec fn parsed(d: DirectionView) -> (DirectionView, Seq<ProcessedFrameView>)
    decreases
            d.reasm.avail.len(),
            flag(d.pending_start_seq is Some),
            flag(d.desynced),
            flag(d.expect_preface),
{
    let (after, out) = parse_step(d);
    match out {
        StepView::Stop => (after, Seq::empty()),
        StepView::Moved => {
            proof {
                lemma_step_decreases(d);
            }
            parsed(after)
        },
        StepView::Frame(f) => {
            proof {
                lemma_step_decreases(d);
            }
            let (last, fs) = parsed(after);
            (last, seq![f] + fs)
        },
    }
}

/// The state once a segment is fed, and the frames it completes.
#[verifier::opaque]
pub open spec fn fed(d: DirectionView, seq: u32, data: Seq<u8>, now_us: u64) -> (
    DirectionView,
    Seq<ProcessedFrameView>,
) {
    let (reasm, gap) = pushed(d.reasm, seq, data, now_us);
    let received = DirectionView { reasm, ..d };
    parsed(
        if gap {
            gap_noted(received)
        } else {
            received
        },
    )
}

/// The state once a moment passed, and the frames that come to light because a
/// hole is given up.
#[verifier::opaque]
pub open spec fn ticked(d: DirectionView, now_us: u64) -> (
    DirectionView,
    Seq<ProcessedFrameView>,
) {
    if hole_expired(d.reasm, now_us) {
        parsed(gap_noted(DirectionView { reasm: gapped(d.reasm), ..d }))
    } else {
        (d, Seq::empty())
    }
}

/// A direction is snapshottable only when we know both where the frame
/// boundaries are and what the table holds.
pub open spec fn snapshottable(d: DirectionView) -> bool {
    &&& !d.poisoned
    &&& !d.desynced
    &&& !d.expect_preface
    &&& claims_exact(d.dec)
    &&& d.block_hdr is None
}

/// Sequence number of the next frame boundary.
pub open spec fn boundary_seq(d: DirectionView) -> u32 {
    add32(d.reasm.base_seq, add64(d.reasm.buf_off, d.discard as int) as int)
}

/// One direction of an HTTP/2 connection.
#[derive(Debug)]
pub struct Direction {
    pub reasm: Reassembler,
    pub dec: Decoder,
    /// HPACK state cannot be trusted (a gap or a decode error occurred).
    pub poisoned: bool,
    /// Frame boundaries are unknown; we are hunting for one.
    pub desynced: bool,
    pub frames: u64,
    pub blocks: u64,
    pub decode_errors: u64,
    pub resyncs: u64,
    pub keep_payloads: bool,
    pub expect_preface: bool,
    /// Bytes of a frame payload still to be thrown away.
    pub discard: u64,
    /// Seek target set when seeding from a snapshot.
    pub pending_start_seq: Option<u32>,
    /// True if we ever found ourselves past the snapshot point, meaning the
    /// capture is missing bytes the snapshot assumed were present.
    pub snapshot_misaligned: bool,
    /// Bytes skipped because they precede the snapshot point. These are ring
    /// backfill from before the capture began; any header block wholly inside
    /// them is unrecoverable, because decoding it would need the table as it
    /// was *earlier* than the snapshot. Counted so the tool can say so rather
    /// than silently emit fewer blocks than the input contained.
    pub pre_snapshot_skipped: u64,
    /// Cap on dynamic table memory, re-applied whenever the decoder is
    /// replaced.
    pub table_track_limit: usize,
    pub block: Vec<u8>,
    pub block_hdr: Option<FrameHeader>,
    pub block_promised: Option<u32>,
    pub open_streams: HashSet<u32>,
}

impl View for Direction {
    type V = DirectionView;

    open spec fn view(&self) -> DirectionView {
        DirectionView {
            reasm: self.reasm@,
            dec: self.dec@,
            poisoned: self.poisoned,
            desynced: self.desynced,
            frames: self.frames,
            blocks: self.blocks,
            decode_errors: self.decode_errors,
            resyncs: self.resyncs,
            keep_payloads: self.keep_payloads,
            expect_preface: self.expect_preface,
            discard: self.discard,
            pending_start_seq: self.pending_start_seq,
            snapshot_misaligned: self.snapshot_misaligned,
            pre_snapshot_skipped: self.pre_snapshot_skipped,
            table_track_limit: self.table_track_limit,
            block: self.block@,
            block_hdr: self.block_hdr,
            block_promised: self.block_promised,
            open_streams: self.open_streams@,
        }
    }
}

/// What one step of parsing came to.
enum Step {
    Stop,
    Moved,
    Frame(ProcessedFrame),
}

spec fn step_view(s: Step) -> StepView {
    match s {
        Step::Stop => StepView::Stop,
        Step::Moved => StepView::Moved,
        Step::Frame(f) => StepView::Frame(f@),
    }
}

/// Whether no field of the list came from an entry that is not known.
fn none_unknown(fields: &[Field]) -> (r: bool)
    ensures
        r == all_resolved(fields_view(fields@)),
{
    let ghost all = fields_view(fields@);
    let mut i: usize = 0;
    while i < fields.len()
        invariant
            i <= fields@.len(),
            all == fields_view(fields@),
            forall|j: int| 0 <= j < i ==> !(#[trigger] all[j]).unknown,
        decreases fields@.len() - i,
    {
        if fields[i].unknown {
            assert(all[i as int].unknown);
            return false;
        }
        i += 1;
    }
    true
}

impl Direction {
    /// The parts are well-formed.
    pub open spec fn wf(&self) -> bool {
        self.reasm.wf() && self.dec.wf()
    }

    /// A direction we joined mid-stream: frame boundaries unknown, table
    /// partially unknown.
    pub fn joined_midstream(keep_payloads: bool) -> (r: Self)
        ensures
            r.wf(),
            r@ == midstream_state(keep_payloads),
    {
        let r = Direction {
            reasm: Reassembler::new(),
            dec: Decoder::new_partial(),
            poisoned: false,
            desynced: true,
            frames: 0,
            blocks: 0,
            decode_errors: 0,
            resyncs: 0,
            keep_payloads,
            expect_preface: false,
            discard: 0,
            pending_start_seq: None,
            snapshot_misaligned: false,
            pre_snapshot_skipped: 0,
            table_track_limit: usize::MAX,
            block: Vec::new(),
            block_hdr: None,
            block_promised: None,
            open_streams: HashSet::new(),
        };
        assert(r@ =~= midstream_state(keep_payloads));
        r
    }

    /// A direction we have from its first byte.
    pub fn from_connection_start(keep_payloads: bool, expect_preface: bool) -> (r: Self)
        ensures
            r.wf(),
            r@ == start_state(keep_payloads, expect_preface),
    {
        let mut d = Self::joined_midstream(keep_payloads);
        d.dec = Decoder::new_exact();
        d.desynced = false;
        d.expect_preface = expect_preface;
        d
    }

    /// Cap how large a peer's dynamic table we will hold in memory. A peer
    /// that negotiates more is reported as untracked rather than allowed to
    /// exhaust the host.
    pub fn set_table_track_limit(&mut self, n: usize)
        requires
            old(self).wf(),
        ensures
            final(self).wf(),
            final(self)@ == capped(old(self)@, n),
    {
        self.table_track_limit = n;
        self.dec.set_track_limit(n);
    }

    /// Seed from a snapshot: the table is known in full, and framing restarts
    /// at `next_frame_seq`.
    pub fn seed_from_snapshot(&mut self, entries: Vec<Field>, max_size: usize, next_frame_seq: u32)
        requires
            old(self).wf(),
            table_bytes(fields_view(entries@)) <= usize::MAX,
        ensures
            final(self).wf(),
            final(self)@ == seeded(old(self)@, fields_view(entries@), max_size, next_frame_seq),
    {
        self.dec = Decoder::from_entries(entries, max_size);
        self.dec.set_track_limit(self.table_track_limit);
        self.desynced = false;
        self.poisoned = false;
        self.expect_preface = false;
        self.block.clear();
        self.block_hdr = None;
        self.block_promised = None;
        self.discard = 0;
        self.pending_start_seq = Some(next_frame_seq);
    }

    /// Feed one TCP segment, and take off every frame that it completes.
    pub fn feed(&mut self, seq: u32, data: &[u8], now_us: u64) -> (r: Vec<ProcessedFrame>)
        requires
            old(self).wf(),
        ensures
            final(self).wf(),
            final(self)@ == fed(old(self)@, seq, data@, now_us).0,
            frames_view(r@) == fed(old(self)@, seq, data@, now_us).1,
    {
        proof {
            reveal(fed);
        }
        if self.reasm.push(seq, data, now_us) {
            self.on_gap();
        }
        self.parse()
    }

    /// Let a moment pass, so that a hole that never fills is given up.
    pub fn tick(&mut self, now_us: u64) -> (r: Vec<ProcessedFrame>)
        requires
            old(self).wf(),
        ensures
            final(self).wf(),
            final(self)@ == ticked(old(self)@, now_us).0,
            frames_view(r@) == ticked(old(self)@, now_us).1,
    {
        proof {
            reveal(ticked);
        }
        if self.reasm.check_timeout(now_us) {
            self.on_gap();
            return self.parse();
        }
        let r = Vec::new();
        assert(frames_view(r@) =~= Seq::empty());
        r
    }

    /// Absolute sequence number of the next frame boundary: the next byte the
    /// frame parser has not consumed, past any payload it is throwing away.
    /// This is what a snapshot records.
    pub fn next_frame_seq(&self) -> (r: u32)
        ensures
            r == boundary_seq(self@),
    {
        self.reasm.seq_at(off_plus(self.reasm.offset(), self.discard))
    }

    /// A direction is snapshottable only when we know both where the frame
    /// boundaries are and what the table holds.
    pub fn is_snapshottable(&self) -> (r: bool)
        ensures
            r == snapshottable(self@),
    {
        !self.poisoned && !self.desynced && !self.expect_preface && self.dec.is_exact()
            && self.block_hdr.is_none()
    }

    /// Whether the connection preface is still to come.
    pub fn awaits_preface(&self) -> (r: bool)
        ensures
            r == self@.expect_preface,
    {
        self.expect_preface
    }

    /// Whether a header block has been opened and not completed.
    pub fn has_open_block(&self) -> (r: bool)
        ensures
            r == self@.block_hdr is Some,
    {
        self.block_hdr.is_some()
    }

    fn on_gap(&mut self)
        requires
            old(self).wf(),
        ensures
            final(self).wf(),
            final(self)@ == gap_noted(old(self)@),
    {
        self.poisoned = true;
        self.desynced = true;
        self.discard = 0;
        self.block.clear();
        self.block_hdr = None;
        self.block_promised = None;
        // Entries we observed are still in the peer's table, but insertions we
        // missed during the gap have shifted them by an unknown amount, so our
        // indices are no longer meaningful. Start over rather than decode
        // confidently wrong headers.
        self.dec.reset_partial();
    }

    fn parse(&mut self) -> (r: Vec<ProcessedFrame>)
        requires
            old(self).wf(),
        ensures
            final(self).wf(),
            final(self)@ == parsed(old(self)@).0,
            frames_view(r@) == parsed(old(self)@).1,
    {
        let mut out: Vec<ProcessedFrame> = Vec::new();
        let ghost all = parsed(self@);
        assert(frames_view(out@) + all.1 =~= all.1);
        loop
            invariant_except_break
                self.wf(),
                all == parsed(old(self)@),
                all.0 == parsed(self@).0,
                all.1 == frames_view(out@) + parsed(self@).1,
            ensures
                self.wf(),
                all == parsed(old(self)@),
                all.0 == self@,
                all.1 == frames_view(out@),
            decreases
                    self@.reasm.avail.len(),
                    flag(self@.pending_start_seq is Some),
                    flag(self@.desynced),
                    flag(self@.expect_preface),
        {
            proof {
                lemma_parsed_unfolds(self@);
                lemma_step_decreases(self@);
            }
            let ghost before = frames_view(out@);
            let ghost rest = parsed(self@).1;
            match self.step() {
                Step::Stop => {
                    assert(before + rest =~= before);
                    break;
                },
                Step::Moved => {},
                Step::Frame(f) => {
                    let ghost fv = f@;
                    out.push(f);
                    proof {
                        assert(frames_view(out@) =~= before.push(fv));
                        assert(before + rest =~= frames_view(out@) + parsed(self@).1);
                    }
                },
            }
        }
        out
    }

    /// Deal with the first of the things that stand in the way of the next
    /// frame, or take the frame.
    fn step(&mut self) -> (r: Step)
        requires
            old(self).wf(),
        ensures
            final(self).wf(),
            parse_step(old(self)@) == (final(self)@, step_view(r)),
    {
        if self.discard > 0 {
            self.step_discard()
        } else if let Some(target) = self.pending_start_seq {
            self.step_seek(target)
        } else if self.desynced {
            if self.try_resync() {
                Step::Moved
            } else {
                Step::Stop
            }
        } else if self.expect_preface {
            self.step_preface()
        } else {
            self.step_frame()
        }
    }

    fn step_discard(&mut self) -> (r: Step)
        requires
            old(self).wf(),
        ensures
            final(self).wf(),
            discard_step(old(self)@) == (final(self)@, step_view(r)),
    {
        let avail: usize = self.reasm.available().len();
        let n: u64 = if self.discard < avail as u64 {
            self.discard
        } else {
            avail as u64
        };
        if n == 0 {
            return Step::Stop;
        }
        self.reasm.consume(n as usize);
        self.discard = self.discard - n;
        Step::Moved
    }

    fn step_seek(&mut self, target: u32) -> (r: Step)
        requires
            old(self).wf(),
        ensures
            final(self).wf(),
            seek_step(old(self)@, target) == (final(self)@, step_view(r)),
    {
        let here: u32 = self.reasm.next_unparsed_seq();
        let delta: i64 = seq_ahead(target, here);
        if delta > 0 {
            let avail: usize = self.reasm.available().len();
            let n: usize = if (delta as u64) < (avail as u64) {
                delta as usize
            } else {
                avail
            };
            if n == 0 {
                return Step::Stop;
            }
            self.reasm.consume(n);
            self.pre_snapshot_skipped = off_plus(self.pre_snapshot_skipped, n as u64);
            return Step::Moved;
        }
        if delta < 0 {
            // The capture starts after the snapshot point, so bytes the
            // snapshot assumed we would see are missing. Refuse to pretend the
            // table is right.
            self.snapshot_misaligned = true;
            self.dec.reset_partial();
            self.desynced = true;
        }
        self.pending_start_seq = None;
        Step::Moved
    }

    fn step_preface(&mut self) -> (r: Step)
        requires
            old(self).wf(),
        ensures
            final(self).wf(),
            preface_step(old(self)@) == (final(self)@, step_view(r)),
    {
        let matched: bool;
        {
            let a = self.reasm.available();
            if a.len() < PREFACE.len() {
                return Step::Stop;
            }
            matched = same_bytes(take(a, PREFACE.len()), &PREFACE);
        }
        self.expect_preface = false;
        if matched {
            self.reasm.consume(PREFACE.len());
        }
        Step::Moved
    }

    fn step_frame(&mut self) -> (r: Step)
        requires
            old(self).wf(),
        ensures
            final(self).wf(),
            frame_step(old(self)@) == (final(self)@, step_view(r)),
    {
        let have: usize = self.reasm.available().len();
        let hdr: FrameHeader = match FrameHeader::parse(self.reasm.available()) {
            Some(h) => h,
            None => return Step::Stop,
        };
        let start_off: u64 = self.reasm.offset();
        let start_seq: u32 = self.reasm.next_unparsed_seq();
        let is_header_frame: bool = hdr.typ == FrameType::HEADERS || hdr.typ
            == FrameType::CONTINUATION || hdr.typ == FrameType::PUSH_PROMISE;
        let want_payload: bool = (self.keep_payloads || is_header_frame || hdr.typ
            == FrameType::SETTINGS) && hdr.len as u64 <= MAX_BUFFERED_FRAME as u64;
        if !want_payload {
            self.reasm.consume(FRAME_HEADER_LEN);
            self.discard = hdr.len as u64;
            self.frames = off_plus(self.frames, 1);
            if is_header_frame {
                // Insertions that were in it are missing from our table now.
                self.lose_block();
            }
            let f = ProcessedFrame {
                hdr,
                payload: Vec::new(),
                start_off,
                start_seq,
                decoded: None,
                is_header_frame,
                truncated: true,
                settings_table_size: None,
            };
            assert(f@.payload =~= Seq::<u8>::empty());
            return Step::Frame(f);
        }
        let plen: usize = hdr.len as usize;
        if have < FRAME_HEADER_LEN + plen {
            return Step::Stop;
        }
        let payload: Vec<u8> = copy_bytes(take(skip(self.reasm.available(), FRAME_HEADER_LEN), plen));
        assert(payload@ =~= self@.reasm.avail.subrange(9, 9 + hdr.len));
        self.reasm.consume(FRAME_HEADER_LEN + plen);
        self.frames = off_plus(self.frames, 1);
        let decoded: Option<DecodedBlock> = self.handle_frame(hdr, &payload);
        let settings_table_size = settings_header_table_size(&hdr, &payload);
        Step::Frame(
            ProcessedFrame {
                hdr,
                payload,
                start_off,
                start_seq,
                decoded,
                is_header_frame,
                truncated: false,
                settings_table_size,
            },
        )
    }

    fn handle_frame(&mut self, hdr: FrameHeader, payload: &[u8]) -> (r: Option<DecodedBlock>)
        requires
            old(self).wf(),
        ensures
            final(self).wf(),
            frame_handled(old(self)@, hdr, payload@) == (
                final(self)@,
                match r {
                    Some(b) => Some(b@),
                    None => None,
                },
            ),
    {
        proof {
            reveal(frame_handled);
        }
        if hdr.typ == FrameType::HEADERS || hdr.typ == FrameType::PUSH_PROMISE {
            self.handle_headers(hdr, payload)
        } else if hdr.typ == FrameType::CONTINUATION {
            self.handle_continuation(hdr, payload)
        } else {
            None
        }
    }

    fn handle_headers(&mut self, hdr: FrameHeader, payload: &[u8]) -> (r: Option<DecodedBlock>)
        requires
            old(self).wf(),
        ensures
            final(self).wf(),
            headers_handled(old(self)@, hdr, payload@) == (
                final(self)@,
                match r {
                    Some(b) => Some(b@),
                    None => None,
                },
            ),
    {
        match header_block_fragment(&hdr, payload) {
            None => {
                self.mark_bad_block();
                None
            },
            Some(frag) => {
                // A new block while one is open is a protocol violation; the
                // safe reading is that we lost our place.
                if self.block_hdr.is_some() {
                    self.lose_block();
                }
                let ghost before = self@;
                self.block_promised = None;
                if hdr.typ == FrameType::PUSH_PROMISE {
                    // The promised stream id sits ahead of the block, after
                    // the pad-length byte when the frame is padded.
                    let p = if hdr.has(flags::PADDED) && payload.len() > 0 {
                        skip(payload, 1)
                    } else {
                        payload
                    };
                    if p.len() >= 4 {
                        self.block_promised = Some(be32(p) % 0x8000_0000);
                    }
                }
                push_all(&mut self.block, frag);
                assert(self.block@ =~= before.block + frag@);
                self.block_hdr = Some(hdr);
                if hdr.has(flags::END_HEADERS) {
                    self.finish_block(hdr)
                } else {
                    None
                }
            },
        }
    }

    fn handle_continuation(&mut self, hdr: FrameHeader, payload: &[u8]) -> (r: Option<
        DecodedBlock,
    >)
        requires
            old(self).wf(),
        ensures
            final(self).wf(),
            continuation_handled(old(self)@, hdr, payload@) == (
                final(self)@,
                match r {
                    Some(b) => Some(b@),
                    None => None,
                },
            ),
    {
        match self.block_hdr {
            None => {
                // CONTINUATION with no open block: we are out of step.
                self.mark_bad_block();
                None
            },
            Some(first) => {
                push_all(&mut self.block, payload);
                if hdr.has(flags::END_HEADERS) {
                    self.finish_block(first)
                } else {
                    None
                }
            },
        }
    }

    /// The header block that `bhdr` opened is complete: decode it. A block that
    /// calls itself exact has no gaps at all, and has a promised stream exactly
    /// where a PUSH_PROMISE opened it.
    fn finish_block(&mut self, bhdr: FrameHeader) -> (r: Option<DecodedBlock>)
        requires
            old(self).wf(),
        ensures
            final(self).wf(),
            block_finished(old(self)@, bhdr) == (
                final(self)@,
                match r {
                    Some(b) => Some(b@),
                    None => None,
                },
            ),
            r matches Some(b) ==> (b@.exact ==> b@.unresolved == 0 && all_resolved(b@.fields)
                && claims_exact(final(self)@.dec)),
            block_in_order(old(self)@) && old(self)@.block_hdr == Some(bhdr) ==> (r matches Some(b)
                ==> truthful(b@) && (b@.kind == BlockKind::PushPromise <==> bhdr.typ
                == FrameType::PUSH_PROMISE)),
    {
        broadcast use vstd::std_specs::hash::group_hash_axioms;

        self.block_hdr = None;
        let promised: Option<u32> = self.block_promised;
        self.block_promised = None;
        let mut block: Vec<u8> = Vec::new();
        std::mem::swap(&mut block, &mut self.block);
        self.blocks = off_plus(self.blocks, 1);
        proof {
            lemma_unresolved_bound(self.dec@, block@);
            assert(self.block@ =~= Seq::<u8>::empty());
        }
        let before: u64 = self.dec.unresolved_refs();
        match self.dec.decode(&block) {
            Err(_) => {
                self.decode_errors = off_plus(self.decode_errors, 1);
                self.poisoned = true;
                // Framing is probably still fine; it is the table that is now
                // untrustworthy.
                self.dec.reset_partial();
                None
            },
            Ok(fields) => {
                let unresolved: u64 = self.dec.unresolved_refs().wrapping_sub(before);
                assert(block.len() == block@.len());
                let sid: u32 = bhdr.stream_id;
                let end_stream: bool = bhdr.has(flags::END_STREAM);
                let push: bool = bhdr.typ == FrameType::PUSH_PROMISE;
                let whole: bool = none_unknown(&fields);
                let kind: BlockKind = if push {
                    BlockKind::PushPromise
                } else if self.open_streams.contains(&sid) {
                    BlockKind::Trailers
                } else {
                    BlockKind::Headers
                };
                if !push {
                    self.note_stream(sid, end_stream);
                }
                Some(
                    DecodedBlock {
                        stream_id: sid,
                        fields,
                        end_stream,
                        kind,
                        promised_stream_id: promised,
                        exact: self.dec.is_exact() && unresolved == 0 && whole,
                        unresolved: unresolved as usize,
                    },
                )
            },
        }
    }

    /// Remember whether the stream goes on after its header block.
    fn note_stream(&mut self, sid: u32, end_stream: bool)
        requires
            old(self).wf(),
        ensures
            final(self).wf(),
            final(self)@ == (DirectionView {
                open_streams: streams_after(old(self)@.open_streams, sid, end_stream),
                ..old(self)@
            }),
    {
        broadcast use vstd::std_specs::hash::group_hash_axioms;

        if end_stream {
            self.open_streams.remove(&sid);
        } else {
            if self.open_streams.len() > MAX_OPEN_STREAMS {
                self.open_streams.clear();
            }
            self.open_streams.insert(sid);
        }
    }

    fn mark_bad_block(&mut self)
        requires
            old(self).wf(),
        ensures
            final(self).wf(),
            final(self)@ == block_spoiled(old(self)@),
    {
        self.block.clear();
        self.block_hdr = None;
        self.block_promised = None;
        self.poisoned = true;
        self.desynced = true;
        self.dec.reset_partial();
    }

    /// A part of a header block is lost, and with it what the table holds.
    fn lose_block(&mut self)
        requires
            old(self).wf(),
        ensures
            final(self).wf(),
            final(self)@ == block_lost(old(self)@),
    {
        self.block.clear();
        self.block_hdr = None;
        self.block_promised = None;
        self.poisoned = true;
        self.dec.reset_partial();
    }

    /// Hunt for a frame boundary. Returns true when one was adopted.
    fn try_resync(&mut self) -> (r: bool)
        requires
            old(self).wf(),
        ensures
            final(self).wf(),
            resync_step(old(self)@) == (
                final(self)@,
                if r {
                    StepView::Moved
                } else {
                    StepView::Stop
                },
            ),
    {
        let avail: usize = self.reasm.available().len();
        match find_boundary(self.reasm.available()) {
            Some((off, ChainCheck::Accept)) => {
                self.reasm.consume(off);
                self.desynced = false;
                self.resyncs = off_plus(self.resyncs, 1);
                true
            },
            // Plausible but not yet provable. Waiting beats skipping past what
            // is very likely the real boundary.
            Some(_) => false,
            None => {
                if avail > RESYNC_WINDOW {
                    // Nothing plausible in a large window; drop the front so
                    // the buffer cannot grow without bound.
                    self.reasm.consume(avail - RESYNC_WINDOW);
                }
                false
            },
        }
    }
}

/// The first offset that may be a frame boundary.
fn find_boundary(a: &[u8]) -> (r: Option<(usize, ChainCheck)>)
    ensures
        match r {
            Some((off, check)) => boundary_from(a@, 0) == Some((off as int, check)),
            None => boundary_from(a@, 0) is None,
        },
{
    let mut off: usize = 0;
    while a.len() - off >= FRAME_HEADER_LEN
        invariant
            off <= a@.len(),
            boundary_from(a@, 0) == boundary_from(a@, off as int),
        decreases a@.len() - off,
    {
        let check = check_frame_chain(skip(a, off), 4, 2);
        match check {
            ChainCheck::Bad => {
                off += 1;
            },
            _ => return Some((off, check)),
        }
    }
    None
}

} // verus!
