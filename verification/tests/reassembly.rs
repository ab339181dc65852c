//! Putting TCP segments back in order.

use h2core::reassembly::{Reassembler, DEFAULT_OOO_LIMIT};

#[test]
fn in_order_segments_map_to_absolute_seq() {
    let mut r = Reassembler::new();
    r.push(1000, b"abc", 0);
    r.push(1003, b"def", 0);
    assert_eq!(r.available(), b"abcdef");
    assert_eq!(r.next_unparsed_seq(), 1000);

    r.consume(4);
    assert_eq!(r.available(), b"ef");
    // Four bytes consumed, so the next unparsed byte is seq 1004.
    assert_eq!(r.next_unparsed_seq(), 1004);
}

#[test]
fn syn_sets_the_base_one_past() {
    let mut r = Reassembler::new();
    r.note_syn(500);
    r.push(501, b"hello", 0);
    assert_eq!(r.next_unparsed_seq(), 501);
    assert!(r.saw_syn);
}

#[test]
fn retransmission_is_deduplicated() {
    let mut r = Reassembler::new();
    r.push(10, b"abcd", 0);
    r.push(10, b"abcd", 0); // pure retransmit
    r.push(12, b"cdef", 0); // overlapping retransmit with new tail
    assert_eq!(r.available(), b"abcdef");
}

#[test]
fn out_of_order_is_held_then_drained() {
    let mut r = Reassembler::new();
    r.push(100, b"aa", 0);
    assert!(!r.push(104, b"cc", 0)); // arrives early, buffered
    assert_eq!(r.available(), b"aa");
    assert!(!r.push(102, b"bb", 0)); // fills the hole
    assert_eq!(r.available(), b"aabbcc");
    assert_eq!(r.gaps, 0);
}

#[test]
fn unfilled_hole_becomes_a_gap_and_offsets_stay_aligned() {
    let mut r = Reassembler::new();
    r.push(100, b"aa", 0);
    r.push(110, b"zz", 0); // hole at 102..110
    assert!(r.check_timeout(10_000_000), "stale hole must declare a gap");
    assert_eq!(r.gaps, 1);
    // We jumped to seq 110 and dropped the pending bytes, but the offset
    // to sequence mapping must still hold.
    assert_eq!(r.available(), b"zz");
    assert_eq!(r.next_unparsed_seq(), 110);
}

#[test]
fn offsets_survive_sequence_wrap() {
    let mut r = Reassembler::new();
    // Four bytes at MAX-3..=MAX, so the next byte is seq 0.
    let start = u32::MAX - 3;
    r.push(start, b"abcd", 0);
    r.push(0, b"efgh", 0);
    assert_eq!(r.available(), b"abcdefgh");
    assert_eq!(r.next_unparsed_seq(), start);
    r.consume(6);
    assert_eq!(r.next_unparsed_seq(), 2);
}

/// What comes out is the stream, however the segments arrive.
#[test]
fn any_order_gives_the_stream() {
    let orders: [[usize; 3]; 6] =
        [[0, 1, 2], [0, 2, 1], [1, 0, 2], [1, 2, 0], [2, 0, 1], [2, 1, 0]];
    let parts: [(u32, &[u8]); 3] = [(101, b"abcd"), (103, b"cdefg"), (107, b"ghi")];
    for o in orders {
        let mut r = Reassembler::new();
        r.note_syn(100);
        for i in o {
            assert!(!r.push(parts[i].0, parts[i].1, 0));
        }
        assert_eq!(r.available(), b"abcdefghi", "order {o:?}");
        assert_eq!(r.bytes_delivered(), 9);
        assert_eq!(r.gaps_declared(), 0);
    }
}

#[test]
fn a_fresh_hole_is_given_time() {
    let mut r = Reassembler::new();
    r.push(100, b"aa", 0);
    r.push(110, b"zz", 0);
    assert!(!r.check_timeout(2_000_000));
    assert!(r.check_timeout(2_000_001));
}

#[test]
fn too_much_held_back_declares_a_gap() {
    let mut r = Reassembler::new();
    r.push(0, b"aa", 0);
    let big = vec![7u8; DEFAULT_OOO_LIMIT + 1];
    assert!(r.push(10, &big, 0));
    assert_eq!(r.gaps_declared(), 1);
    assert_eq!(r.next_unparsed_seq(), 10);
    assert_eq!(r.available().len(), big.len());
}

#[test]
fn offsets_and_sequence_numbers_go_together() {
    let mut r = Reassembler::default();
    r.push(u32::MAX, b"abcd", 0);
    r.consume(2);
    assert_eq!(r.offset(), 2);
    assert_eq!(r.seq_at(r.offset()), r.next_unparsed_seq());
    assert_eq!(r.next_unparsed_seq(), 1);
}

/// A second hole behind the first one is given up in its turn.
#[test]
fn every_hole_is_given_up_in_its_turn() {
    let mut r = Reassembler::new();
    r.push(100, b"aa", 0);
    r.push(110, b"zz", 0);
    r.push(120, b"yy", 0);
    assert!(r.check_timeout(10_000_000));
    assert_eq!((r.gaps, r.next_unparsed_seq()), (1, 110));
    assert!(r.check_timeout(20_000_000));
    assert_eq!(r.gaps, 2);
    assert_eq!(r.available(), b"yy");
    assert_eq!(r.next_unparsed_seq(), 120);
    assert!(!r.check_timeout(30_000_000));
}

/// Pieces that overlap, repeat and come in any order make the stream, also
/// where sequence numbers wrap.
#[test]
fn pieces_make_the_stream() {
    let isn = u32::MAX - 3;
    let s = b"0123456789";
    let pieces = [(8, 10), (3, 6), (3, 6), (5, 9), (1, 4), (0, 0), (0, 2), (4, 5)];
    let mut r = Reassembler::new();
    r.note_syn(isn);
    for (i, (from, to)) in pieces.into_iter().enumerate() {
        let seq = isn.wrapping_add(1 + from as u32);
        assert!(!r.push(seq, &s[from..to], i as u64));
    }
    assert_eq!(r.available(), s);
    assert_eq!((r.bytes_delivered(), r.gaps_declared()), (10, 0));
    assert_eq!(r.next_unparsed_seq(), isn.wrapping_add(1));
    assert!(!r.check_timeout(u64::MAX));
}
