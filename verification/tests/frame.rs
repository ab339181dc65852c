//! The frame layer.

use h2core::frame::{
    build_frame, check_frame_chain, data_payload, flags, header_block_fragment,
    settings_header_table_size, ChainCheck, FrameHeader, FrameType, FRAME_HEADER_LEN, PREFACE,
};

#[test]
fn header_round_trip() {
    let h = FrameHeader { len: 1234, typ: FrameType::HEADERS, flags: 0x05, stream_id: 7 };
    let mut buf = Vec::new();
    h.write(&mut buf);
    assert_eq!(buf.len(), FRAME_HEADER_LEN);
    assert_eq!(FrameHeader::parse(&buf).unwrap(), h);
}

#[test]
fn reserved_bit_is_masked_off() {
    let raw = [0, 0, 0, 1, 4, 0x80, 0, 0, 5];
    assert_eq!(FrameHeader::parse(&raw).unwrap().stream_id, 5);
}

#[test]
fn strips_padding_and_priority() {
    let hdr = FrameHeader {
        len: 0,
        typ: FrameType::HEADERS,
        flags: flags::PADDED | flags::PRIORITY,
        stream_id: 1,
    };
    // pad len 2, 5 priority bytes, 3 block bytes, 2 pad bytes
    let payload = [2u8, 0, 0, 0, 0, 0, 0xaa, 0xbb, 0xcc, 0, 0];
    assert_eq!(header_block_fragment(&hdr, &payload).unwrap(), &[0xaa, 0xbb, 0xcc]);
}

#[test]
fn extracts_settings_table_size() {
    let hdr = FrameHeader { len: 12, typ: FrameType::SETTINGS, flags: 0, stream_id: 0 };
    let payload = [0, 3, 0, 0, 0, 100, 0, 1, 0, 0, 0, 0];
    assert_eq!(settings_header_table_size(&hdr, &payload), Some(0));
}

#[test]
fn settings_ack_carries_no_table_size() {
    let hdr =
        FrameHeader { len: 0, typ: FrameType::SETTINGS, flags: flags::ACK, stream_id: 0 };
    assert_eq!(settings_header_table_size(&hdr, &[]), None);
}

#[test]
fn chain_check_accepts_real_frames_and_rejects_noise() {
    let mut s = Vec::new();
    s.extend_from_slice(&build_frame(FrameType::SETTINGS, 0, 0, &[0, 1, 0, 0, 16, 0]));
    s.extend_from_slice(&build_frame(FrameType::HEADERS, 0x04, 1, &[0x82, 0x86]));
    s.extend_from_slice(&build_frame(FrameType::DATA, 0x01, 1, b"{\"x\":1}"));
    assert_eq!(check_frame_chain(&s, 3, 2), ChainCheck::Accept);

    let noise = b"GET /nnrf-nfm/v1/nf-instances HTTP/1.1\r\nHost: nrf\r\n\r\n";
    assert_eq!(check_frame_chain(noise, 3, 2), ChainCheck::Bad);
}

#[test]
fn the_preface_is_the_one_of_the_rfc() {
    assert_eq!(&PREFACE, b"PRI * HTTP/2.0\r\n\r\nSM\r\n\r\n");
}

#[test]
fn a_short_header_is_no_header() {
    assert!(FrameHeader::parse(&[0, 0, 0, 1, 4, 0, 0, 0]).is_none());
    assert!(FrameHeader::parse(&[]).is_none());
}

#[test]
fn a_built_frame_is_header_and_payload() {
    let f = build_frame(FrameType::PING, flags::ACK, 0, &[1, 2, 3]);
    assert_eq!(f, vec![0, 0, 3, 6, 1, 0, 0, 0, 0, 1, 2, 3]);
    let h = FrameHeader::parse(&f).unwrap();
    assert_eq!(h.total_len(), 12);
    assert!(h.has(flags::ACK) && !h.has(flags::PADDED));
    // The reserved bit of the stream id reads as clear.
    let b = build_frame(FrameType::DATA, 0, 0x8000_0007, b"xy");
    assert_eq!(FrameHeader::parse(&b).unwrap().stream_id, 7);
    assert_eq!(&b[9..], b"xy");
}

#[test]
fn frame_types_have_names() {
    assert_eq!(FrameType::name(FrameType::DATA), "DATA");
    assert_eq!(FrameType::name(FrameType::HEADERS), "HEADERS");
    assert_eq!(FrameType::name(FrameType::CONTINUATION), "CONTINUATION");
    assert_eq!(FrameType::name(0x42), "UNKNOWN");
}

#[test]
fn padding_longer_than_the_payload_is_refused() {
    let hdr = FrameHeader { len: 2, typ: FrameType::DATA, flags: flags::PADDED, stream_id: 1 };
    assert!(data_payload(&hdr, &[5, 0]).is_none());
    assert_eq!(data_payload(&hdr, &[1, 7, 0]).unwrap(), &[7]);
    let hdr = FrameHeader { len: 0, typ: FrameType::HEADERS, flags: flags::PADDED, stream_id: 1 };
    assert!(header_block_fragment(&hdr, &[]).is_none());
}

#[test]
fn a_chain_that_is_cut_short_asks_for_more() {
    let f = build_frame(FrameType::SETTINGS, 0, 0, &[0, 1, 0, 0, 16, 0]);
    assert_eq!(check_frame_chain(&f, 3, 2), ChainCheck::NeedMore);
}
