//! The ring of recent packets.

use h2core::ring::Ring;

#[test]
fn ring_is_bounded_by_age_not_just_size() {
    let mut r = Ring::new(1 << 20, 5);
    r.push(1_000_000, &[0u8; 100]); // t = 1s
    r.push(2_000_000, &[0u8; 100]); // t = 2s
    assert_eq!(r.q.len(), 2);

    // A packet 10s later must age both out: the backfill only needs to
    // cover a partially received frame, and keeping hours of history drags
    // long-dead connections into the capture.
    r.push(12_000_000, &[0u8; 100]);
    assert_eq!(r.q.len(), 1);
    assert_eq!(r.oldest_us(), Some(12_000_000));
    assert_eq!(r.bytes, 100, "byte accounting must follow the eviction");
}

#[test]
fn ring_still_respects_the_byte_limit() {
    let mut r = Ring::new(250, 3600);
    for i in 0..5 {
        r.push(1_000_000 + i, &[0u8; 100]);
    }
    assert!(r.bytes <= 250, "bytes={}", r.bytes);
    assert_eq!(r.q.len(), 2);
}

#[test]
fn an_empty_ring_has_no_oldest_packet() {
    assert_eq!(Ring::new(10, 1).oldest_us(), None);
}

/// What stays is the newest part, in order and byte for byte.
#[test]
fn the_newest_packets_stay() {
    let mut r = Ring::new(10, 1000);
    for i in 0..20u8 {
        r.push(i as u64, &[i; 3]);
    }
    let kept: Vec<(u64, Vec<u8>)> = r.q.iter().cloned().collect();
    assert_eq!(kept, vec![(17, vec![17; 3]), (18, vec![18; 3]), (19, vec![19; 3])]);
    assert_eq!(r.bytes, 9);
}

/// A packet larger than the whole ring finds no place in it.
#[test]
fn an_oversize_packet_empties_the_ring() {
    let mut r = Ring::new(10, 1000);
    r.push(1, &[0; 4]);
    r.push(2, &[0; 50]);
    assert_eq!((r.q.len(), r.bytes), (0, 0));
    assert_eq!(r.oldest_us(), None);
}
