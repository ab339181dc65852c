//! One direction of a connection: framing, header blocks, gaps and snapshots.

use h2core::conn::{BlockKind, Direction};
use h2core::frame::{build_frame, FrameType, PREFACE};
use h2core::hpack::encode_literal;
use h2core::Field;

fn c2s_stream() -> Vec<u8> {
    let mut s = Vec::new();
    s.extend_from_slice(&PREFACE);
    s.extend_from_slice(&build_frame(FrameType::SETTINGS, 0, 0, &[0, 1, 0, 0, 16, 0]));
    // :method GET (idx 2), :scheme https (idx 7), then an indexed literal
    // so the dynamic table gains an entry.
    let mut blk = vec![0x82, 0x87];
    blk.push(0x40);
    blk.extend_from_slice(&[10]);
    blk.extend_from_slice(b"x-sbi-test");
    blk.extend_from_slice(&[3]);
    blk.extend_from_slice(b"amf");
    s.extend_from_slice(&build_frame(FrameType::HEADERS, 0x04, 1, &blk));
    s.extend_from_slice(&build_frame(FrameType::DATA, 0x01, 1, b"{\"supi\":\"imsi-1\"}"));
    s
}

#[test]
fn parses_preface_settings_headers_and_data() {
    let mut d = Direction::from_connection_start(true, true);
    let s = c2s_stream();
    let frames = d.feed(1000, &s, 0);

    let types: Vec<u8> = frames.iter().map(|f| f.hdr.typ).collect();
    assert_eq!(types, vec![FrameType::SETTINGS, FrameType::HEADERS, FrameType::DATA]);
    assert_eq!(frames[0].settings_table_size, Some(4096));

    let blk = frames[1].decoded.as_ref().expect("headers decode");
    assert_eq!(blk.stream_id, 1);
    assert_eq!(blk.kind, BlockKind::Headers);
    assert!(blk.exact);
    assert_eq!(blk.unresolved, 0);
    assert_eq!(blk.fields[0].name_str(), ":method");
    assert_eq!(blk.fields[2].name_str(), "x-sbi-test");

    assert_eq!(frames[2].payload, b"{\"supi\":\"imsi-1\"}");
    assert!(d.is_snapshottable());
}

#[test]
fn frame_split_across_segments_is_reassembled() {
    let mut d = Direction::from_connection_start(true, true);
    let s = c2s_stream();
    let (a, b) = s.split_at(20);
    let f1 = d.feed(1000, a, 0);
    assert!(f1.is_empty(), "nothing complete yet");
    let f2 = d.feed(1000 + a.len() as u32, b, 0);
    assert_eq!(f2.len(), 3);
}

#[test]
fn continuation_frames_are_joined_before_decode() {
    let mut d = Direction::from_connection_start(true, false);
    let fields =
        vec![Field::new(&b":status"[..], &b"200"[..]), Field::new(&b"server"[..], &b"udm"[..])];
    let block = encode_literal(&fields);
    let (a, b) = block.split_at(3);
    let mut s = Vec::new();
    s.extend_from_slice(&build_frame(FrameType::HEADERS, 0, 1, a));
    s.extend_from_slice(&build_frame(FrameType::CONTINUATION, 0x04, 1, b));

    let frames = d.feed(1, &s, 0);
    assert!(frames[0].decoded.is_none());
    let blk = frames[1].decoded.as_ref().unwrap();
    assert_eq!(blk.fields.len(), 2);
    assert_eq!(blk.fields[1].value_str(), "udm");
}

#[test]
fn second_header_block_on_a_stream_is_trailers() {
    let mut d = Direction::from_connection_start(true, false);
    let h = encode_literal(&[Field::new(&b":status"[..], &b"200"[..])]);
    let t = encode_literal(&[Field::new(&b"grpc-status"[..], &b"0"[..])]);
    let mut s = Vec::new();
    s.extend_from_slice(&build_frame(FrameType::HEADERS, 0x04, 3, &h));
    s.extend_from_slice(&build_frame(FrameType::HEADERS, 0x04 | 0x01, 3, &t));
    let frames = d.feed(1, &s, 0);
    assert_eq!(frames[0].decoded.as_ref().unwrap().kind, BlockKind::Headers);
    assert_eq!(frames[1].decoded.as_ref().unwrap().kind, BlockKind::Trailers);
}

/// Joining mid-stream: the parser must find the frame boundary on its own
/// and must not claim the result is exact.
#[test]
fn midstream_join_resyncs_to_a_frame_boundary() {
    let mut d = Direction::joined_midstream(true);
    let s = c2s_stream();
    // Start 6 bytes into the DATA frame's neighbourhood: strip the preface
    // and part of the SETTINGS frame so we begin mid-frame.
    let cut = PREFACE.len() + 5;
    let frames = d.feed(500, &s[cut..], 0);

    assert!(!d.desynced, "should have found a boundary");
    assert!(frames.iter().any(|f| f.hdr.typ == FrameType::DATA));
    assert!(!d.dec.is_exact(), "a mid-stream join is never exact up front");
    assert!(!d.is_snapshottable());
}

/// A lost segment must poison the direction rather than silently decode
/// against a stale table.
#[test]
fn gap_poisons_the_direction_and_resets_the_table() {
    let mut d = Direction::from_connection_start(true, true);
    let s = c2s_stream();
    d.feed(1000, &s, 0);
    assert!(d.is_snapshottable());

    // A segment far ahead leaves a hole that never fills.
    d.feed(1000 + s.len() as u32 + 5000, b"\x00\x00\x00\x00\x04\x00\x00\x00\x00", 0);
    d.tick(10_000_000);

    assert!(d.poisoned, "gap must poison");
    assert!(!d.is_snapshottable(), "must refuse to snapshot after a gap");
    assert!(!d.dec.is_exact());
}

#[test]
fn snapshot_seed_skips_to_the_recorded_boundary() {
    // Build a stream, note where its second frame starts, then replay from
    // an earlier byte with a seed pointing at that boundary.
    let mut s = Vec::new();
    let h1 = encode_literal(&[Field::new(&b":status"[..], &b"200"[..])]);
    s.extend_from_slice(&build_frame(FrameType::DATA, 0, 7, b"leading-garbage"));
    let boundary = s.len();
    s.extend_from_slice(&build_frame(FrameType::HEADERS, 0x04, 9, &h1));

    let base = 4_000_000_000u32; // near wrap, to exercise the arithmetic
    let mut d = Direction::joined_midstream(true);
    d.seed_from_snapshot(Vec::new(), 4096, base.wrapping_add(boundary as u32));
    let frames = d.feed(base, &s, 0);

    assert_eq!(frames.len(), 1, "bytes before the boundary must be skipped");
    assert_eq!(frames[0].hdr.typ, FrameType::HEADERS);
    assert_eq!(frames[0].decoded.as_ref().unwrap().fields[0].value_str(), "200");
    assert!(!d.snapshot_misaligned);
}

#[test]
fn snapshot_seed_detects_a_capture_that_starts_too_late() {
    let mut d = Direction::joined_midstream(true);
    // Snapshot says the boundary is at seq 1000, but our first byte is
    // 1500: the capture missed 500 bytes the snapshot assumed.
    d.seed_from_snapshot(Vec::new(), 4096, 1000);
    d.feed(1500, &build_frame(FrameType::DATA, 0, 1, b"xy"), 0);
    assert!(d.snapshot_misaligned, "must notice and refuse to trust the table");
}

/// Cutting a stream into segments anywhere gives the frames of the whole.
#[test]
fn segmentation_does_not_matter() {
    let s = c2s_stream();
    let mut whole = Direction::from_connection_start(true, true);
    let all = whole.feed(77, &s, 0);
    for cut in 0..=s.len() {
        let mut d = Direction::from_connection_start(true, true);
        let mut got = d.feed(77, &s[..cut], 0);
        got.extend(d.feed(77 + cut as u32, &s[cut..], 0));
        assert_eq!(got.len(), all.len(), "cut at {cut}");
        for (a, b) in got.iter().zip(all.iter()) {
            assert_eq!(a.hdr, b.hdr);
            assert_eq!(a.payload, b.payload);
            assert_eq!((a.start_off, a.start_seq), (b.start_off, b.start_seq));
            assert_eq!(a.decoded.is_some(), b.decoded.is_some());
        }
        assert_eq!(d.next_frame_seq(), whole.next_frame_seq());
        assert_eq!(d.dec.table_size(), whole.dec.table_size());
    }
}

/// The recorded boundary is that of a frame, also in the middle of one.
#[test]
fn the_next_frame_starts_where_the_pending_one_does() {
    let s = c2s_stream();
    let mut d = Direction::from_connection_start(true, true);
    // Preface and SETTINGS are whole, HEADERS is cut.
    let settings_end = PREFACE.len() + 15;
    d.feed(1000, &s[..settings_end + 5], 0);
    assert_eq!(d.next_frame_seq(), 1000 + settings_end as u32);
}

/// A frame too large to buffer is thrown away as it arrives, and the boundary is
/// the end of it.
#[test]
fn oversized_frames_are_discarded_up_to_their_end() {
    let mut d = Direction::from_connection_start(true, false);
    let big: usize = (1 << 20) + 10;
    let f = build_frame(FrameType::DATA, 0, 1, &vec![0u8; big]);
    let first = d.feed(0, &f[..100], 0);
    assert_eq!(first.len(), 1);
    assert!(first[0].truncated);
    assert_eq!(d.next_frame_seq(), f.len() as u32);
    d.feed(100, &f[100..], 0);
    assert_eq!(d.next_frame_seq(), f.len() as u32);
    let next = d.feed(f.len() as u32, &build_frame(FrameType::PING, 0, 0, &[0; 8]), 0);
    assert_eq!(next.len(), 1);
    assert_eq!(next[0].hdr.typ, FrameType::PING);
}

/// Before the preface is in, no frame boundary is known.
#[test]
fn nothing_is_snapshottable_before_the_preface() {
    let mut d = Direction::from_connection_start(true, true);
    assert!(d.awaits_preface());
    assert!(!d.is_snapshottable());
    d.feed(1, &PREFACE[..10], 0);
    assert!(!d.is_snapshottable());
    d.feed(11, &PREFACE[10..], 0);
    assert!(!d.awaits_preface());
    assert!(d.is_snapshottable());
}

#[test]
fn an_open_header_block_is_not_snapshottable() {
    let mut d = Direction::from_connection_start(true, false);
    let block = encode_literal(&[Field::new(b":status", b"200")]);
    d.feed(1, &build_frame(FrameType::HEADERS, 0, 1, &block[..2]), 0);
    assert!(d.has_open_block());
    assert!(!d.is_snapshottable());
}

#[test]
fn push_promises_carry_the_promised_stream() {
    let mut d = Direction::from_connection_start(true, false);
    let mut p = vec![0x80, 0, 0, 2];
    p.extend_from_slice(&encode_literal(&[Field::new(b":path", b"/x")]));
    let frames = d.feed(1, &build_frame(FrameType::PUSH_PROMISE, 0x04, 1, &p), 0);
    let blk = frames[0].decoded.as_ref().unwrap();
    assert_eq!(blk.kind, BlockKind::PushPromise);
    assert_eq!(blk.promised_stream_id, Some(2));
    assert_eq!(blk.fields[0].value_str(), "/x");
}

#[test]
fn a_block_that_cannot_be_decoded_poisons() {
    let mut d = Direction::from_connection_start(true, false);
    // Index 70 on a connection whose table is known in full.
    let frames = d.feed(1, &build_frame(FrameType::HEADERS, 0x04, 1, &[0xc6]), 0);
    assert!(frames[0].decoded.is_none());
    assert!(d.poisoned);
    assert_eq!(d.decode_errors, 1);
}

/// Payloads are not kept where nobody wants them; header blocks are decoded
/// all the same.
#[test]
fn payloads_can_be_left_out() {
    let mut d = Direction::from_connection_start(false, true);
    let frames = d.feed(1000, &c2s_stream(), 0);
    assert_eq!(frames.len(), 3);
    assert!(frames[2].payload.is_empty());
    assert!(frames[1].decoded.is_some());
}

/// A direction restored at a boundary reads on as the live one does.
#[test]
fn a_restored_direction_reads_on_as_the_live_one() {
    let s = c2s_stream();
    let mut live = Direction::from_connection_start(true, true);
    live.feed(1000, &s, 0);
    let entries: Vec<Field> = live.dec.entries().cloned().collect();
    let at = live.next_frame_seq();

    let more = build_frame(FrameType::HEADERS, 0x04, 3, &[0x82, 0xbe]);
    let mut back = Direction::joined_midstream(true);
    back.seed_from_snapshot(entries, live.dec.max_size(), at);
    let a = live.feed(at, &more, 0);
    let b = back.feed(at, &more, 0);
    assert_eq!(a.len(), 1);
    assert_eq!(b.len(), 1);
    let (x, y) = (a[0].decoded.as_ref().unwrap(), b[0].decoded.as_ref().unwrap());
    assert_eq!(x.fields, y.fields);
    assert_eq!(y.fields[1].name_str(), "x-sbi-test");
    assert!(y.exact);
    assert_eq!(a[0].start_seq, b[0].start_seq);
    assert!(!back.snapshot_misaligned);
}

/// Any number of cuts gives the frames of the whole.
#[test]
fn many_cuts_do_not_matter() {
    let s = c2s_stream();
    let mut whole = Direction::from_connection_start(true, true);
    let all = whole.feed(u32::MAX - 20, &s, 0);
    for size in 1..=30 {
        let mut d = Direction::from_connection_start(true, true);
        let mut got = Vec::new();
        let mut off = 0;
        for (i, piece) in s.chunks(size).enumerate() {
            got.extend(d.feed((u32::MAX - 20).wrapping_add(off as u32), piece, i as u64));
            off += piece.len();
        }
        assert_eq!(got.len(), all.len(), "pieces of {size}");
        for (a, b) in got.iter().zip(all.iter()) {
            assert_eq!((a.hdr, a.start_off, a.start_seq), (b.hdr, b.start_off, b.start_seq));
            assert_eq!(a.payload, b.payload);
        }
        assert_eq!(d.next_frame_seq(), whole.next_frame_seq());
        assert_eq!(d.dec.table_size(), whole.dec.table_size());
        assert_eq!((d.frames, d.blocks), (whole.frames, whole.blocks));
    }
}

/// Each frame starts where the one before it ends, and the next one where the
/// last one does.
#[test]
fn frames_follow_upon_each_other() {
    let mut d = Direction::from_connection_start(false, true);
    let frames = d.feed(1000, &c2s_stream(), 0);
    assert_eq!(frames[0].start_seq, 1000 + PREFACE.len() as u32);
    for w in frames.windows(2) {
        assert_eq!(w[1].start_off, w[0].start_off + 9 + w[0].hdr.len as u64);
        assert_eq!(w[1].start_seq, w[0].start_seq + 9 + w[0].hdr.len);
    }
    let last = frames.last().unwrap();
    assert_eq!(d.next_frame_seq(), last.start_seq + 9 + last.hdr.len);

    // Each has its whole payload or is marked as lacking it, stands at the number
    // of its offset, and is counted.
    assert_eq!(d.frames, frames.len() as u64);
    for f in &frames {
        assert_eq!(f.start_seq, d.reasm.seq_at(f.start_off));
        if f.truncated {
            assert!(f.payload.is_empty() && f.decoded.is_none());
        } else {
            assert_eq!(f.payload.len(), f.hdr.len as usize);
        }
    }
    assert_eq!(frames.iter().filter(|f| f.truncated).count(), 1);
}

/// A header frame that makes no sense has the direction hunt for its place; the
/// frames beyond are still whole and counted.
#[test]
fn a_senseless_header_frame_loses_the_place() {
    let mut s = build_frame(FrameType::CONTINUATION, 0x04, 1, b"xy");
    s.extend_from_slice(b"noise");
    for _ in 0..4 {
        s.extend_from_slice(&build_frame(FrameType::PING, 0, 0, &[0; 8]));
    }
    let mut d = Direction::from_connection_start(true, false);
    let frames = d.feed(1, &s, 0);
    assert!(d.poisoned && !d.desynced);
    assert_eq!(d.resyncs, 1);
    assert_eq!(frames.len(), 5);
    assert_eq!(d.frames, 5);
    // The noise lies between the first two.
    assert_eq!(frames[1].start_off, frames[0].start_off + 9 + frames[0].hdr.len as u64 + 5);
    assert!(frames.iter().all(|f| f.payload.len() == f.hdr.len as usize));
}

/// A snapshot resumes however segments arrive at either side: in another order,
/// overlapping, sent again.
#[test]
fn a_snapshot_resumes_however_segments_arrive() {
    let s = c2s_stream();
    let base = 7_000u32;
    let mut later = Vec::new();
    for sid in [3u32, 5, 7] {
        later.extend_from_slice(&build_frame(FrameType::HEADERS, 0x04, sid, &[0x82, 0xbe]));
        later.extend_from_slice(&build_frame(FrameType::DATA, 0, sid, b"{}"));
    }
    let mut d = Direction::from_connection_start(true, true);
    d.feed(base, &s, 0);
    let n = d.next_frame_seq();
    let piece = |from: usize, to: usize| (n + from as u32, later[from..to].to_vec());

    let mut want = Vec::new();
    for (seq, data) in [piece(20, 50), piece(0, 10), piece(0, 25), piece(45, later.len())] {
        want.extend(d.feed(seq, &data, 0));
    }
    assert_eq!(want.len(), 6);
    assert!(!d.poisoned);

    let mut e = Direction::joined_midstream(true);
    e.seed_from_snapshot(vec![Field::new(b"x-sbi-test", b"amf")], 4096, n);
    let before = s[s.len() - 4..].to_vec();
    let mut got = e.feed(n - 4, &before, 0);
    for (seq, data) in [piece(60, later.len()), piece(30, 61), piece(0, 31), piece(3, 9)] {
        got.extend(e.feed(seq, &data, 0));
    }
    assert_eq!(got.len(), want.len());
    for (a, b) in got.iter().zip(want.iter()) {
        assert_eq!((a.hdr, &a.payload), (b.hdr, &b.payload));
        if let (Some(x), Some(y)) = (&a.decoded, &b.decoded) {
            assert_eq!(x.fields.len(), y.fields.len());
            for (p, q) in x.fields.iter().zip(y.fields.iter()) {
                assert_eq!((&p.name, &p.value), (&q.name, &q.value));
            }
            assert_eq!(x.fields[1].value_str(), "amf");
        }
    }
    assert!(!e.snapshot_misaligned);
    assert_eq!(e.pre_snapshot_skipped, 4);
    assert_eq!((got[0].start_seq, got[0].start_off), (n, 4));
    assert_eq!(e.next_frame_seq(), d.next_frame_seq());
}

/// Whatever happens to a direction, its blocks tell the truth about themselves.
#[test]
fn blocks_tell_the_truth_whatever_happens() {
    let block = encode_literal(&[Field::new(b":path", b"/x")]);
    let mut promise = vec![0x80, 0, 0, 8];
    promise.extend_from_slice(&block);
    let mut d = Direction::joined_midstream(true);
    let mut s = Vec::new();
    for _ in 0..4 {
        s.extend_from_slice(&build_frame(FrameType::PING, 0, 0, &[0; 8]));
    }
    s.extend_from_slice(&build_frame(FrameType::PUSH_PROMISE, 0, 1, &promise));
    s.extend_from_slice(&build_frame(FrameType::CONTINUATION, 0x04, 1, &block));
    s.extend_from_slice(&build_frame(FrameType::HEADERS, 0x04, 3, &[0xbe, 0x82]));
    s.extend_from_slice(&build_frame(FrameType::HEADERS, 0x04, 5, &block));
    let mut frames = d.feed(1, &s, 0);
    d.seed_from_snapshot(vec![Field::new(b"a", b"b")], 4096, 1 + s.len() as u32);
    let more = build_frame(FrameType::HEADERS, 0x04, 7, &[0xbe]);
    frames.extend(d.feed(1 + s.len() as u32, &more, 1));
    let blocks: Vec<_> = frames.iter().filter_map(|f| f.decoded.as_ref()).collect();
    assert_eq!(blocks.len(), 4);
    for b in &blocks {
        assert_eq!(b.promised_stream_id.is_some(), b.kind == BlockKind::PushPromise);
        assert!(!b.exact || (b.unresolved == 0 && b.fields.iter().all(|f| !f.unknown)));
    }
    assert_eq!(blocks[0].promised_stream_id, Some(8));
    assert_eq!((blocks[1].unresolved, blocks[1].exact), (1, false));
    assert!(blocks[3].exact);
}

/// While a payload is thrown away, the next frame starts behind it.
#[test]
fn the_next_frame_starts_behind_a_payload_that_is_thrown_away() {
    let f = build_frame(FrameType::DATA, 0, 1, b"0123456789");
    let mut d = Direction::from_connection_start(false, false);
    assert_eq!(d.feed(1000, &f[..13], 0).len(), 1);
    assert_eq!(d.next_frame_seq(), 1019);
    assert!(d.feed(1013, &f[13..], 0).is_empty());
    assert_eq!(d.next_frame_seq(), 1019);
    let next = d.feed(1019, &f, 0);
    assert_eq!(next[0].start_seq, 1019);

    let mut d = Direction::from_connection_start(true, false);
    assert!(d.feed(1000, &f[..13], 0).is_empty());
    assert_eq!(d.next_frame_seq(), 1000);
    assert_eq!(d.feed(1013, &f[13..], 0)[0].start_seq, 1000);
}

/// A header frame too large to keep takes the table with it.
#[test]
fn a_dropped_header_frame_poisons() {
    for typ in [FrameType::HEADERS, FrameType::PUSH_PROMISE] {
        let mut d = Direction::from_connection_start(false, true);
        let s = c2s_stream();
        d.feed(0, &s, 0);
        assert!(d.is_snapshottable());
        let big = build_frame(typ, 0x04, 3, &vec![0u8; (1 << 20) + 1]);
        let frames = d.feed(s.len() as u32, &big, 0);
        assert!(frames[0].truncated && frames[0].decoded.is_none());
        assert!(d.poisoned);
        assert!(!d.is_snapshottable());
        assert!(!d.dec.is_exact());
        // Frame boundaries are still known.
        let next = d.feed((s.len() + big.len()) as u32, &build_frame(6, 0, 0, &[0; 8]), 0);
        assert_eq!(next[0].hdr.typ, FrameType::PING);
    }

    let mut d = Direction::from_connection_start(false, false);
    let block = encode_literal(&[Field::new(b":status", b"200")]);
    let open = build_frame(FrameType::HEADERS, 0, 1, &block);
    d.feed(0, &open, 0);
    let big = build_frame(FrameType::CONTINUATION, 0x04, 1, &vec![0u8; (1 << 20) + 1]);
    d.feed(open.len() as u32, &big, 0);
    assert!(d.poisoned && !d.has_open_block() && !d.is_snapshottable());
}

/// A field that came out of an unknown entry is never part of an exact block,
/// even where that entry went into the table in front of us.
#[test]
fn an_unknown_field_is_not_exact() {
    // The capacity goes down to 64, and a name that was never seen is indexed
    // again; the second block refers to that.
    let mut s = build_frame(FrameType::HEADERS, 0x04, 1, &[0x3f, 0x21, 0x7e, 0x00]);
    s.extend_from_slice(&build_frame(FrameType::HEADERS, 0x04, 3, &[0xbe]));
    s.extend_from_slice(&build_frame(FrameType::HEADERS, 0x04, 5, &[0xbe]));
    let mut d = Direction::joined_midstream(true);
    let frames = d.feed(1, &s, 0);
    assert_eq!(frames.len(), 3);
    for f in &frames {
        let b = f.decoded.as_ref().unwrap();
        assert!(b.fields[0].unknown);
        assert!(!b.exact);
    }
    assert!(!d.is_snapshottable());
}

/// A HEADERS frame in place of a CONTINUATION promises nothing.
#[test]
fn headers_promise_no_stream() {
    let mut d = Direction::from_connection_start(true, false);
    let mut p = vec![0, 0, 0, 2];
    let block = encode_literal(&[Field::new(b":path", b"/x")]);
    p.extend_from_slice(&block);
    let mut s = build_frame(FrameType::PUSH_PROMISE, 0, 1, &p);
    s.extend_from_slice(&build_frame(FrameType::HEADERS, 0x04, 1, &block));
    let frames = d.feed(1, &s, 0);
    assert!(frames[0].decoded.is_none());
    let b = frames[1].decoded.as_ref().unwrap();
    assert_eq!(b.kind, BlockKind::Headers);
    assert_eq!(b.promised_stream_id, None);
    // What the abandoned block did to the table is not known.
    assert!(!b.exact);
    assert!(d.poisoned && !d.is_snapshottable());
}

/// A seeded direction skips exactly the bytes ahead of the boundary, whatever
/// they are, and then reads on as the first one does.
#[test]
fn a_snapshot_resumes_midstream() {
    let s = c2s_stream();
    let base = u32::MAX - 50;
    let mut later = Vec::new();
    for sid in [3u32, 5] {
        later.extend_from_slice(&build_frame(FrameType::HEADERS, 0x04, sid, &[0x82, 0xbe]));
        later.extend_from_slice(&build_frame(FrameType::DATA, 0, sid, b"{}"));
    }
    for cut in 0..9 {
        // The snapshot is taken `cut` bytes into a frame.
        let mut d = Direction::from_connection_start(true, true);
        let mut seen = s.clone();
        seen.extend_from_slice(&later[..cut]);
        d.feed(base, &seen, 0);
        assert!(d.is_snapshottable());
        let n = d.next_frame_seq();
        assert_eq!(n, base.wrapping_add(s.len() as u32));

        let mut e = Direction::joined_midstream(true);
        e.seed_from_snapshot(vec![Field::new(b"x-sbi-test", b"amf")], 4096, n);
        let want = d.feed(base.wrapping_add(seen.len() as u32), &later[cut..], 0);
        let before = 30;
        let mut rest = s[s.len() - before..].to_vec();
        rest.extend_from_slice(&later);
        let got = e.feed(n.wrapping_sub(before as u32), &rest, 0);

        assert!(!e.snapshot_misaligned);
        assert_eq!(e.pre_snapshot_skipped, before as u64);
        assert_eq!(got.len(), want.len());
        assert_eq!((got[0].start_seq, got[0].start_off), (n, before as u64));
        for (a, b) in got.iter().zip(want.iter()) {
            assert_eq!((a.hdr, &a.payload), (b.hdr, &b.payload));
            let lists: Vec<Vec<(Vec<u8>, Vec<u8>)>> = [a, b]
                .iter()
                .map(|f| match &f.decoded {
                    Some(x) => x.fields.iter().map(|y| (y.name.clone(), y.value.clone())).collect(),
                    None => Vec::new(),
                })
                .collect();
            assert_eq!(lists[0], lists[1]);
        }
        assert_eq!(e.next_frame_seq(), d.next_frame_seq());

        // It does not matter how those bytes are cut.
        for size in [1, 7, 31] {
            let mut c = Direction::joined_midstream(true);
            c.seed_from_snapshot(vec![Field::new(b"x-sbi-test", b"amf")], 4096, n);
            let mut seq = n.wrapping_sub(before as u32);
            let mut frames = Vec::new();
            for piece in rest.chunks(size) {
                frames.extend(c.feed(seq, piece, 0));
                seq = seq.wrapping_add(piece.len() as u32);
            }
            assert_eq!(frames.len(), got.len());
            assert!(frames.iter().zip(got.iter()).all(|(x, y)| x.start_off == y.start_off));
            assert_eq!(c.pre_snapshot_skipped, before as u64);
            assert_eq!(c.next_frame_seq(), e.next_frame_seq());
        }
    }
}
