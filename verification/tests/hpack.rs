//! HPACK: the decoder, the literal encoder and the integers and strings below
//! them.

use h2core::hpack::primitive::{
    read_int, read_string, split_string, string_value, write_int, write_string,
};
use h2core::hpack::static_table::{static_entry, STATIC_LEN};
use h2core::hpack::encode_literal;
use h2core::{Decoder, Field, HpackError};

fn hex(s: &str) -> Vec<u8> {
    s.split_whitespace()
        .flat_map(|w| w.as_bytes().chunks(2))
        .map(|p| u8::from_str_radix(std::str::from_utf8(p).unwrap(), 16).unwrap())
        .collect()
}

fn shown(fs: &[Field]) -> Vec<(String, String)> {
    fs.iter()
        .map(|f| (f.name_str().into_owned(), f.value_str().into_owned()))
        .collect()
}

/// RFC 7541 C.3: three requests sharing one dynamic table, literals.
#[test]
fn rfc7541_c3_request_sequence() {
    let mut d = Decoder::new_exact();

    let r1 = d.decode(&hex("8286 8441 0f77 7777 2e65 7861 6d70 6c65 2e63 6f6d")).unwrap();
    assert_eq!(
        shown(&r1),
        vec![
            (":method".into(), "GET".into()),
            (":scheme".into(), "http".into()),
            (":path".into(), "/".into()),
            (":authority".into(), "www.example.com".into()),
        ]
    );
    assert_eq!(d.table_size(), 57);

    let r2 = d.decode(&hex("8286 84be 5808 6e6f 2d63 6163 6865")).unwrap();
    assert_eq!(
        shown(&r2),
        vec![
            (":method".into(), "GET".into()),
            (":scheme".into(), "http".into()),
            (":path".into(), "/".into()),
            (":authority".into(), "www.example.com".into()),
            ("cache-control".into(), "no-cache".into()),
        ]
    );
    assert_eq!(d.table_size(), 110);

    let r3 = d
        .decode(&hex("8287 85bf 400a 6375 7374 6f6d 2d6b 6579 0c63 7573 746f 6d2d 7661 6c75 65"))
        .unwrap();
    assert_eq!(
        shown(&r3),
        vec![
            (":method".into(), "GET".into()),
            (":scheme".into(), "https".into()),
            (":path".into(), "/index.html".into()),
            (":authority".into(), "www.example.com".into()),
            ("custom-key".into(), "custom-value".into()),
        ]
    );
    assert_eq!(d.table_size(), 164);
}

/// RFC 7541 C.4: same sequence, Huffman coded. Exercises the huffman path.
#[test]
fn rfc7541_c4_huffman() {
    let mut d = Decoder::new_exact();
    let r1 = d.decode(&hex("8286 8441 8cf1 e3c2 e5f2 3a6b a0ab 90f4 ff")).unwrap();
    assert_eq!(
        shown(&r1),
        vec![
            (":method".into(), "GET".into()),
            (":scheme".into(), "http".into()),
            (":path".into(), "/".into()),
            (":authority".into(), "www.example.com".into()),
        ]
    );
}

/// RFC 7541 C.5: responses with a 256-byte table, exercising eviction.
#[test]
fn rfc7541_c5_eviction() {
    let mut d = Decoder::new_exact();
    d.apply_peer_capacity(256);

    d.decode(&hex(
        "4803 3330 3258 0770 7269 7661 7465 611d 4d6f 6e2c 2032 3120 4f63 7420 3230 3133 \
         2032 303a 3133 3a32 3120 474d 546e 1768 7474 7073 3a2f 2f77 7777 2e65 7861 6d70 \
         6c65 2e63 6f6d",
    ))
    .unwrap();
    assert_eq!(d.table_size(), 222);

    d.decode(&hex("4803 3330 37c1 c0bf")).unwrap();
    assert_eq!(d.table_size(), 222);

    let r3 = d
        .decode(&hex(
            "88c1 611d 4d6f 6e2c 2032 3120 4f63 7420 3230 3133 2032 303a 3133 3a32 3220 \
             474d 54c0 5a04 677a 6970 7738 666f 6f3d 4153 444a 4b48 514b 425a 584f 5157 \
             454f 5049 5541 5851 5745 4f49 553b 206d 6178 2d61 6765 3d33 3630 303b 2076 \
             6572 7369 6f6e 3d31",
        ))
        .unwrap();
    assert_eq!(
        shown(&r3),
        vec![
            (":status".into(), "200".into()),
            ("cache-control".into(), "private".into()),
            ("date".into(), "Mon, 21 Oct 2013 20:13:22 GMT".into()),
            ("location".into(), "https://www.example.com".into()),
            ("content-encoding".into(), "gzip".into()),
            (
                "set-cookie".into(),
                "foo=ASDJKHQKBZXOQWEOPIUAXQWEOIU; max-age=3600; version=1".into()
            ),
        ]
    );
    assert_eq!(d.table_size(), 215);
}

/// A decoder that joined mid-stream emits placeholders rather than failing,
/// and the indices of entries it *did* observe stay correct.
#[test]
fn partial_decoder_placeholders_and_exact_indices() {
    let mut d = Decoder::new_partial();

    // Index 70 refers to an entry inserted before we started watching.
    let out = d.decode(&hex("c6")).unwrap();
    assert!(out[0].unknown);
    assert_eq!(out[0].name_str(), "@unresolved-idx-70");
    assert_eq!(d.unresolved_refs(), 1);
    assert!(!d.is_exact());

    // Now observe a real insertion. It becomes index 62.
    d.decode(&hex("400a 6375 7374 6f6d 2d6b 6579 0c63 7573 746f 6d2d 7661 6c75 65"))
        .unwrap();
    let out = d.decode(&hex("be")).unwrap();
    assert_eq!(shown(&out), vec![("custom-key".into(), "custom-value".into())]);
    assert!(!out[0].unknown);
}

/// Once our own observed entries fill the table, no pre-capture entry can
/// remain, and the decoder must say so.
#[test]
fn partial_decoder_becomes_exact_when_table_is_full() {
    let mut d = Decoder::new_partial();
    d.apply_peer_capacity(256);
    assert!(!d.is_exact());

    // 256 / (32 + 8) => 7 entries of our own fills it past the point where
    // a 32-byte pre-capture entry could still fit.
    for i in 0..7 {
        let name = format!("hdr-{i}");
        let mut block = vec![0x40];
        write_string(&mut block, name.as_bytes());
        write_string(&mut block, b"v");
        d.decode(&block).unwrap();
    }
    assert!(d.is_exact(), "table full of observed entries must be exact");

    // And from here an out-of-range index is a real error, not a gap.
    assert!(matches!(d.decode(&hex("ff00")), Err(HpackError::BadIndex(_))));
}

/// The normalized encoding must round-trip through a decoder that has no
/// dynamic table state at all. That is the guarantee the normalizer sells.
#[test]
fn literal_encoding_is_stateless() {
    let fields = vec![
        Field::new(&b":status"[..], &b"201"[..]),
        Field::new(&b"content-type"[..], &b"application/json"[..]),
        Field::new(
            &b"location"[..],
            &b"https://amf.5gc.mnc001.mcc001.3gppnetwork.org/namf-comm/v1/ue-contexts/imsi-001010000000001"[..],
        ),
    ];
    let wire = encode_literal(&fields);

    let mut fresh = Decoder::new_exact();
    let back = fresh.decode(&wire).unwrap();
    assert_eq!(shown(&back), shown(&fields));
    // Crucially the decoder's table is still empty: nothing was indexed,
    // so any later block decodes without this one.
    assert_eq!(fresh.table_size(), 0);
}

#[test]
fn literal_encoding_handles_long_strings() {
    let long = vec![b'x'; 5000];
    let fields = vec![Field::new(&b"3gpp-sbi-correlation-info"[..], &long)];
    let wire = encode_literal(&fields);
    let mut fresh = Decoder::new_exact();
    let back = fresh.decode(&wire).unwrap();
    assert_eq!(back[0].value, long);
}


fn size_update(n: usize) -> Vec<u8> {
    let mut v = Vec::new();
    write_int(&mut v, n, 5, 0x20);
    v
}

fn insertion(name: &str, value: &str) -> Vec<u8> {
    let mut b = vec![0x40];
    write_string(&mut b, name.as_bytes());
    write_string(&mut b, value.as_bytes());
    b
}

/// Apps are free to negotiate far more than the 4096 default.
#[test]
fn large_negotiated_tables_are_honoured() {
    let mut d = Decoder::new_exact();
    d.decode(&size_update(4_096_000)).unwrap();
    assert_eq!(d.max_size(), 4_096_000);

    // And the table really does grow past 4096 rather than evicting.
    let mut wire = Vec::new();
    for i in 0..200 {
        wire.extend_from_slice(&insertion(&format!("h-{i:03}"), &"v".repeat(40)));
    }
    d.decode(&wire).unwrap();
    assert_eq!(d.entries().count(), 200, "nothing may be evicted below capacity");
    assert!(d.table_size() > 4096);
}

/// SETTINGS_HEADER_TABLE_SIZE is a full u32, so the varint decoder has to
/// cover the whole range.
#[test]
fn table_size_across_the_full_u32_range() {
    for n in [4096usize, 65_536, 4_096_000, 16_777_216, 268_435_456, u32::MAX as usize] {
        let mut d = Decoder::new_exact();
        d.decode(&size_update(n)).unwrap_or_else(|e| panic!("size {n} failed: {}", e.message()));
        assert_eq!(d.max_size(), n);
    }
}

/// The "table is full so nothing older can remain" proof is only sound if
/// the capacity is the real one. Joining mid-stream we do not know it, so
/// the claim must not be made.
#[test]
fn saturation_does_not_prove_exactness_when_capacity_is_only_assumed() {
    let mut d = Decoder::new_partial();
    assert!(!d.capacity_observed());
    for i in 0..200 {
        d.decode(&insertion(&format!("h-{i:03}"), &"v".repeat(40))).unwrap();
    }
    assert!(!d.is_exact(), "must not claim exactness on an assumed capacity");

    // Once the peer tells us the capacity, the proof becomes available.
    let mut d2 = Decoder::new_partial();
    d2.apply_peer_capacity(4096);
    assert!(d2.capacity_observed());
    for i in 0..200 {
        d2.decode(&insertion(&format!("h-{i:03}"), &"v".repeat(40))).unwrap();
    }
    assert!(d2.is_exact(), "with a known capacity, saturation does prove it");
}

/// Under-assuming the capacity must never yield a wrong header. Recent
/// entries agree; entries we wrongly evicted go out of range instead.
#[test]
fn under_assumed_capacity_fails_visibly_never_wrongly() {
    let mut wire = Vec::new();
    for i in 0..200 {
        wire.extend_from_slice(&insertion(&format!("h-{i:03}"), &"v".repeat(20)));
    }
    let mut peer = Decoder::new_exact();
    peer.decode(&size_update(4_096_000)).unwrap();
    peer.decode(&wire).unwrap();

    let mut us = Decoder::new_partial(); // never saw the size update
    us.decode(&wire).unwrap();
    assert!(peer.entries().count() > us.entries().count());

    // Newest entry: both must agree.
    assert_eq!(peer.decode(&[0xbe]).unwrap()[0].name, us.decode(&[0xbe]).unwrap()[0].name);

    // An entry the peer kept but we dropped must not resolve to something
    // else; it is either an error or a flagged placeholder.
    let mut old = Vec::new();
    write_int(&mut old, 62 + 150, 7, 0x80);
    match us.decode(&old) {
        Err(HpackError::BadIndex(_)) => {}
        Ok(v) => assert!(v[0].unknown, "silently returned a wrong entry: {}", v[0].describe()),
        Err(e) => panic!("unexpected error {}", e.message()),
    }
}

/// A peer negotiating an enormous table must not be able to make us
/// allocate it.
#[test]
fn track_limit_refuses_oversized_tables() {
    let mut d = Decoder::new_exact();
    d.set_track_limit(64 * 1024);
    d.decode(&size_update(4_096_000)).unwrap();
    assert!(d.over_limit(), "must refuse to track beyond the limit");
    assert!(!d.is_exact(), "not tracking means not exact");

    let mut wire = Vec::new();
    for i in 0..500 {
        wire.extend_from_slice(&insertion(&format!("h-{i:03}"), &"v".repeat(100)));
    }
    d.decode(&wire).unwrap();
    assert_eq!(d.table_size(), 0, "nothing may be retained");
    assert_eq!(d.entries().count(), 0);

    // References into it degrade to placeholders, not wrong values.
    let out = d.decode(&[0xbe]).unwrap();
    assert!(out[0].unknown);
}

#[test]
fn varint_round_trip() {
    for v in [0usize, 1, 126, 127, 128, 255, 256, 1337, 16383, 16384, 1 << 20] {
        for (bits, flags) in [(7u8, 0x00u8), (6, 0x40), (5, 0x20), (4, 0x10)] {
            let mut buf = Vec::new();
            write_int(&mut buf, v, bits, flags);
            let (got, rest) = read_int(&buf, bits).unwrap();
            assert_eq!(got, v, "bits={bits}");
            assert!(rest.is_empty());
        }
    }
}

// Tables and indices.

#[test]
fn static_table_ends_are_in_place() {
    assert_eq!(STATIC_LEN, 61);
    assert_eq!(static_entry(1), (":authority", ""));
    assert_eq!(static_entry(2), (":method", "GET"));
    assert_eq!(static_entry(16), ("accept-encoding", "gzip, deflate"));
    assert_eq!(static_entry(61), ("www-authenticate", ""));
}

#[test]
fn a_field_counts_its_bytes_and_the_overhead() {
    let f = Field::new(b"custom-key", b"custom-value");
    assert_eq!(f.size(), 10 + 12 + 32);
    assert!(!f.sensitive && !f.unknown);
}

#[test]
fn a_field_describes_itself_with_its_marks() {
    let mut f = Field::new(b"cookie", b"a=b");
    assert_eq!(f.describe(), "cookie: a=b");
    f.sensitive = true;
    assert_eq!(f.describe(), "cookie: a=b [sensitive]");
    f.unknown = true;
    assert_eq!(f.describe(), "cookie: a=b [sensitive] [unresolved]");
}

#[test]
fn bytes_that_are_no_text_are_shown_with_replacements() {
    let f = Field::new(&[0x61, 0xff, 0x62], b"plain");
    assert_eq!(f.name_str(), "a\u{fffd}b");
    assert_eq!(f.value_str(), "plain");
}

#[test]
fn errors_say_what_is_wrong() {
    assert_eq!(HpackError::Truncated.message(), "truncated header block");
    assert_eq!(HpackError::IntOverflow.message(), "integer overflow");
    assert_eq!(HpackError::ZeroIndex.message(), "index 0 is not valid");
    assert_eq!(HpackError::BadIndex(99).message(), "index 99 out of range");
    assert_eq!(HpackError::Huffman.message(), "huffman decode failed");
}

#[test]
fn each_error_has_an_input_that_gives_it() {
    let mut d = Decoder::new_exact();
    assert_eq!(d.decode(&[0x80]), Err(HpackError::ZeroIndex));
    assert_eq!(d.decode(&[0xbe]), Err(HpackError::BadIndex(62)));
    assert_eq!(d.decode(&[0x40]), Err(HpackError::Truncated));
    assert_eq!(d.decode(&[0x40, 0x05, b'a']), Err(HpackError::Truncated));
    assert_eq!(
        d.decode(&[0xff, 0xff, 0xff, 0xff, 0xff, 0xff, 0x01]),
        Err(HpackError::IntOverflow)
    );
    // A Huffman string whose padding is not all ones.
    assert_eq!(d.decode(&[0x40, 0x81, 0xfe, 0x00]), Err(HpackError::Huffman));
    // A literal that names an entry nobody inserted.
    assert_eq!(d.decode(&[0x7f, 0x00, 0x00]), Err(HpackError::BadIndex(63)));
}

#[test]
fn never_indexed_fields_are_marked_and_not_inserted() {
    let mut d = Decoder::new_exact();
    let out = d.decode(&hex("1008 7061 7373 776f 7264 0673 6563 7265 74")).unwrap();
    assert_eq!(shown(&out), vec![("password".to_string(), "secret".to_string())]);
    assert!(out[0].sensitive);
    assert_eq!(d.table_size(), 0);
}

#[test]
fn sensitive_fields_stay_sensitive_when_encoded() {
    let mut f = Field::new(b"a", b"b");
    assert_eq!(encode_literal(&[f.clone()]), vec![0x00, 1, b'a', 1, b'b']);
    f.sensitive = true;
    let wire = encode_literal(&[f]);
    assert_eq!(wire, vec![0x10, 1, b'a', 1, b'b']);
    assert!(Decoder::new_exact().decode(&wire).unwrap()[0].sensitive);
}

/// An entry that was inserted under a name that could not be resolved takes its
/// slot all the same.
#[test]
fn unresolved_names_still_occupy_a_slot() {
    let mut d = Decoder::new_partial();
    d.decode(&insertion("known", "1")).unwrap();
    // Literal with incremental indexing, name at index 70, value "x".
    let out = d.decode(&[0x7f, 0x07, 0x01, b'x']).unwrap();
    assert!(out[0].unknown);
    assert_eq!(out[0].name_str(), "@unresolved-idx-70");
    assert_eq!(d.entries().count(), 2);
    assert_eq!(d.decode(&[0xbf]).unwrap()[0].name_str(), "known");
}

#[test]
fn an_entry_larger_than_the_table_empties_it() {
    let mut d = Decoder::new_exact();
    d.decode(&size_update(64)).unwrap();
    d.decode(&insertion("a", "b")).unwrap();
    assert_eq!(d.table_size(), 34);
    d.decode(&insertion("name", &"v".repeat(64))).unwrap();
    assert_eq!(d.table_size(), 0);
    assert_eq!(d.entry_count(), 0);
}

/// Emptying a table proves that nothing older is left only where the capacity is
/// the real one.
#[test]
fn an_oversize_entry_does_not_prove_exactness_on_an_assumed_capacity() {
    let mut d = Decoder::new_partial();
    d.decode(&insertion("name", &"v".repeat(5000))).unwrap();
    assert!(!d.is_exact());
    assert_eq!(d.table_size(), 0);

    let mut e = Decoder::new_partial();
    e.apply_peer_capacity(4096);
    e.decode(&insertion("name", &"v".repeat(5000))).unwrap();
    assert!(e.is_exact());
}

#[test]
fn a_restored_decoder_resolves_what_it_was_given() {
    let mut d = Decoder::from_entries(
        vec![Field::new(b"newest", b"1"), Field::new(b"older", b"2")],
        4096,
    );
    assert!(d.is_exact() && d.capacity_observed());
    assert_eq!(d.table_size(), (6 + 1 + 32) + (5 + 1 + 32));
    assert_eq!(d.entry(0).name_str(), "newest");
    let out = d.decode(&[0xbe, 0xbf]).unwrap();
    assert_eq!(
        shown(&out),
        vec![("newest".to_string(), "1".to_string()), ("older".to_string(), "2".to_string())]
    );
    assert_eq!(d.decode(&[0xc0]), Err(HpackError::BadIndex(64)));
}

#[test]
fn resetting_forgets_the_table_and_keeps_the_capacity() {
    let mut d = Decoder::new_exact();
    d.decode(&size_update(1000)).unwrap();
    d.decode(&insertion("a", "b")).unwrap();
    d.reset_partial();
    assert_eq!((d.table_size(), d.entry_count(), d.max_size()), (0, 0, 1000));
    assert!(!d.is_exact());
    assert!(d.decode(&[0xbe]).unwrap()[0].unknown);
}

#[test]
fn a_peer_capacity_lowers_and_never_raises() {
    let mut d = Decoder::new_exact();
    d.apply_peer_capacity(1 << 20);
    assert_eq!(d.max_size(), 4096);
    d.apply_peer_capacity(128);
    assert_eq!(d.max_size(), 128);
}

// Integers and strings.

#[test]
fn integers_of_the_rfc() {
    // RFC 7541 C.1: 10 and 1337 with a five bit prefix, 42 with eight bits.
    let mut v = Vec::new();
    write_int(&mut v, 10, 5, 0x00);
    assert_eq!(v, vec![0x0a]);
    let mut v = Vec::new();
    write_int(&mut v, 1337, 5, 0x00);
    assert_eq!(v, vec![0x1f, 0x9a, 0x0a]);
    assert_eq!(read_int(&[0x1f, 0x9a, 0x0a, 0x99], 5).unwrap(), (1337, &[0x99u8][..]));
    assert_eq!(read_int(&[], 5), Err(HpackError::Truncated));
    assert_eq!(read_int(&[0x1f, 0x9a], 5), Err(HpackError::Truncated));
}

#[test]
fn a_string_is_split_before_it_is_decoded() {
    assert_eq!(split_string(&[0x02, b'h', b'i', 9]).unwrap(), (false, &b"hi"[..], &[9u8][..]));
    assert_eq!(split_string(&[0x81, 0x1f]).unwrap(), (true, &[0x1fu8][..], &[][..]));
    assert_eq!(split_string(&[]), Err(HpackError::Truncated));
    assert_eq!(split_string(&[0x03, b'h']), Err(HpackError::Truncated));
    assert_eq!(string_value(false, b"hi", Ok(vec![1])).unwrap(), b"hi");
    assert_eq!(string_value(true, b"hi", Ok(vec![1])).unwrap(), vec![1]);
}

#[test]
fn huffman_strings_are_decoded() {
    // RFC 7541 C.4.2: "no-cache".
    let mut b = vec![0x86];
    b.extend_from_slice(&hex("a8eb 1064 9cbf"));
    b.push(0x55);
    assert_eq!(read_string(&b).unwrap(), (b"no-cache".to_vec(), &[0x55u8][..]));
}

#[test]
fn plain_strings_round_trip() {
    for n in [0usize, 1, 126, 127, 128, 5000] {
        let s = vec![b'q'; n];
        let mut out = Vec::new();
        write_string(&mut out, &s);
        out.push(7);
        assert_eq!(read_string(&out).unwrap(), (s, &[7u8][..]));
    }
}

// What an observer knows.

/// A decoder that joined late shows what one that saw everything shows, or a
/// placeholder; never something else.
#[test]
fn a_late_observer_is_right_or_says_so() {
    let mut peer = Decoder::new_exact();
    peer.decode(&insertion("early", "1")).unwrap();
    let mut us = Decoder::new_partial();
    let mut wire = insertion("late", "2");
    wire.extend_from_slice(&[0xbe, 0xbf]);
    let theirs = peer.decode(&wire).unwrap();
    let ours = us.decode(&wire).unwrap();
    assert_eq!(ours.len(), theirs.len());
    for (a, b) in ours.iter().zip(theirs.iter()) {
        assert!(a.unknown || a == b);
    }
    assert!(ours[2].unknown);
    assert_eq!(us.unresolved_refs(), 1);
}

/// A table restored from the entries decodes what the live one decodes.
#[test]
fn a_restored_table_decodes_alike() {
    let mut live = Decoder::new_exact();
    live.decode(&insertion("a", "1")).unwrap();
    live.decode(&insertion("b", "2")).unwrap();
    let kept: Vec<Field> = live.entries().cloned().collect();
    let mut back = Decoder::from_entries(kept, live.max_size());
    let mut wire = vec![0xbe, 0xbf];
    wire.extend_from_slice(&insertion("c", "3"));
    wire.extend_from_slice(&[0xbe, 0xbf, 0xc0]);
    assert_eq!(live.decode(&wire), back.decode(&wire));
    assert_eq!(live.table_size(), back.table_size());
}
