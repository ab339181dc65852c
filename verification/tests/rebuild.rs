//! Rebuilding a capture so that its headers decode on their own.

use h2core::addr::{IpAddr, SocketAddr};
use h2core::conn::{BlockKind, DecodedBlock, Direction};
use h2core::frame::{build_frame, flags, FrameHeader, FrameType, PREFACE};
use h2core::hpack::encode_literal;
use h2core::pkt::{build_tcp_packet, parse_ethernet, tcp_flags, Endpoint};
use h2core::rebuild::{encode_block, Rebuilder, Report, Seeds};
use h2core::snapshot::{CaptureSnapshot, ConnSnapshot, DirSnapshot, Entry, Str, SNAPSHOT_VERSION};
use h2core::Field;

const CLIENT: &str = "10.0.0.1:41234";
const SERVER: &str = "10.0.0.2:7777";
const BASE_SEQ: u32 = 1_000_000;

fn ep() -> Endpoint {
    Endpoint {
        eth_dst: [0x02, 0, 0, 0, 0, 2],
        eth_src: [0x02, 0, 0, 0, 0, 1],
        src_ip: IpAddr::v4(10, 0, 0, 1),
        dst_ip: IpAddr::v4(10, 0, 0, 2),
        src_port: 41234,
        dst_port: 7777,
    }
}

/// Literal with incremental indexing, new name: inserts into the dynamic
/// table, which is exactly what we need a pre-capture entry to be.
fn lit_indexed(name: &[u8], value: &[u8]) -> Vec<u8> {
    let mut v = vec![0x40];
    v.push(name.len() as u8);
    v.extend_from_slice(name);
    v.push(value.len() as u8);
    v.extend_from_slice(value);
    v
}

/// A client stream where the second request references table entries the
/// first request inserted. Returns (stream bytes, offset of request two).
fn conversation() -> (Vec<u8>, usize) {
    let mut s = Vec::new();
    s.extend_from_slice(&PREFACE);
    s.extend_from_slice(&build_frame(FrameType::SETTINGS, 0, 0, &[0, 1, 0, 0, 16, 0]));

    // Request one: indexed pseudo-headers plus two insertions.
    let mut b1 = vec![0x82, 0x87, 0x84]; // :method GET, :scheme https, :path /
    b1.extend_from_slice(&lit_indexed(b":authority", b"nrf.5gc"));
    b1.extend_from_slice(&lit_indexed(b"3gpp-sbi-target-apiroot", b"https://udm"));
    s.extend_from_slice(&build_frame(FrameType::HEADERS, flags::END_HEADERS, 1, &b1));

    let offset_req2 = s.len();

    // Request two: 0xbe and 0xbf are dynamic indices 62 and 63, i.e. the
    // two entries above. Undecodable without the table.
    let b2 = vec![0x82, 0x87, 0x84, 0xbf, 0xbe];
    s.extend_from_slice(&build_frame(
        FrameType::HEADERS,
        flags::END_HEADERS | flags::END_STREAM,
        3,
        &b2,
    ));
    s.extend_from_slice(&build_frame(FrameType::DATA, flags::END_STREAM, 1, b"{\"x\":1}"));
    (s, offset_req2)
}

type Packets = Vec<(u64, Vec<u8>)>;

/// A capture of one packet carrying `bytes` at `seq`.
fn input_packets(seq: u32, bytes: &[u8]) -> Packets {
    let frame =
        build_tcp_packet(&ep(), seq, 1, tcp_flags::PSH | tcp_flags::ACK, 65535, 1, bytes);
    vec![(1_700_000_000_000_000, frame)]
}

/// A capture of a connection from its SYN on.
fn packets_from_syn(stream: &[u8]) -> Packets {
    let syn = build_tcp_packet(&ep(), BASE_SEQ - 1, 0, tcp_flags::SYN, 65535, 0, &[]);
    let data =
        build_tcp_packet(&ep(), BASE_SEQ, 1, tcp_flags::PSH | tcp_flags::ACK, 65535, 1, stream);
    vec![(1000, syn), (2000, data)]
}

fn snapshot(next_frame_seq: u32, usable: bool) -> CaptureSnapshot {
    // Newest first: index 62 is entries[0].
    let entries = vec![
        Entry {
            n: Str::from_bytes(b"3gpp-sbi-target-apiroot"),
            v: Str::from_bytes(b"https://udm"),
        },
        Entry { n: Str::from_bytes(b":authority"), v: Str::from_bytes(b"nrf.5gc") },
    ];
    CaptureSnapshot {
        version: SNAPSHOT_VERSION,
        capture_id: "t".into(),
        started_unix_us: 1,
        iface: "test".into(),
        pcap_path: "x".into(),
        conns_usable: 1,
        conns_degraded: 0,
        conns: vec![ConnSnapshot {
            conn_id: "t1".into(),
            client: CLIENT.into(),
            server: SERVER.into(),
            first_seen_unix_us: 1,
            dirs: vec![DirSnapshot {
                dir: "c2s".into(),
                src: CLIENT.into(),
                dst: SERVER.into(),
                next_frame_seq,
                max_table_size: 4096,
                capacity_observed: true,
                table_size: 100,
                usable,
                reason: if usable { None } else { Some("test".into()) },
                entries,
            }],
        }],
    }
}

fn run(packets: &Packets, snap: Option<CaptureSnapshot>, mss: usize) -> (Report, Packets) {
    let seeds = match snap {
        Some(s) => Seeds::from_snapshot(&s).unwrap_or_else(|e| panic!("{}", e.message())),
        None => Seeds::none(),
    };
    let mut r = Rebuilder::new(seeds);
    for (ts, p) in packets {
        r.on_packet(p, *ts);
    }
    r.finish(mss)
}

/// Decode the rebuilt packets the way a fresh reader would: no prior state,
/// no dynamic table.
fn decode_output(packets: &Packets) -> Vec<Vec<(String, String)>> {
    let mut dir = Direction::from_connection_start(true, true);
    let mut blocks = Vec::new();
    for (_, p) in packets {
        let Some(seg) = parse_ethernet(p) else { continue };
        if seg.src_port != 41234 || seg.payload.is_empty() {
            continue;
        }
        for f in dir.feed(seg.seq, seg.payload, 0) {
            if let Some(b) = f.decoded {
                blocks.push(
                    b.fields
                        .iter()
                        .map(|x| (x.name_str().into_owned(), x.value_str().into_owned()))
                        .collect(),
                );
            }
        }
    }
    assert!(!dir.poisoned, "rebuilt capture must decode cleanly");
    blocks
}

/// The headline claim: a capture that starts mid-connection, plus the
/// snapshot, rebuilds into a capture that decodes fully on its own.
#[test]
fn midstream_capture_plus_snapshot_rebuilds_exactly() {
    let (stream, off) = conversation();

    // Capture begins at request two: request one, which built the table,
    // is not in the packets at all.
    let inp = input_packets(BASE_SEQ + off as u32, &stream[off..]);
    let snap = snapshot(BASE_SEQ + off as u32, true);
    let (rep, out) = run(&inp, Some(snap), 1400);

    assert_eq!(rep.conns_seeded, 1);
    assert_eq!(rep.header_blocks, 1);
    assert_eq!(rep.blocks_exact, 1, "seeded decode must be exact");
    assert_eq!(rep.unresolved_refs, 0);
    assert_eq!(rep.conns_misaligned, 0);

    let blocks = decode_output(&out);
    assert_eq!(blocks.len(), 1);
    assert_eq!(
        blocks[0],
        vec![
            (":method".to_string(), "GET".to_string()),
            (":scheme".to_string(), "https".to_string()),
            (":path".to_string(), "/".to_string()),
            (":authority".to_string(), "nrf.5gc".to_string()),
            ("3gpp-sbi-target-apiroot".to_string(), "https://udm".to_string()),
        ],
        "headers that referenced pre-capture table entries must come back intact"
    );
}

/// Same capture without the snapshot: the tool must degrade visibly rather
/// than invent plausible headers.
#[test]
fn midstream_capture_without_snapshot_marks_the_gaps() {
    let (stream, off) = conversation();
    let inp = input_packets(BASE_SEQ + off as u32, &stream[off..]);
    let (rep, out) = run(&inp, None, 1400);

    assert_eq!(rep.conns_seeded, 0);
    assert_eq!(rep.blocks_exact, 0);
    assert_eq!(rep.unresolved_refs, 2, "both pre-capture references are gaps");

    let blocks = decode_output(&out);
    let names: Vec<&str> = blocks[0].iter().map(|(n, _)| n.as_str()).collect();
    assert!(names.contains(&"@unresolved-idx-62"), "got {names:?}");
    assert!(names.contains(&"@unresolved-idx-63"), "got {names:?}");
}

/// A capture taken from connection setup needs no snapshot at all, and the
/// rebuilt output must still be HPACK-free.
#[test]
fn full_capture_rebuilds_without_a_snapshot() {
    let (stream, _) = conversation();
    // The SYN is there, so the rebuilder knows it has the stream from byte one.
    let inp = packets_from_syn(&stream);
    let mut r = Rebuilder::new(Seeds::none());
    let mut records = Vec::new();
    for (ts, p) in &inp {
        if let Some(done) = r.on_packet(p, *ts) {
            records.extend(done.records(*ts));
        }
    }
    let (rep, out) = r.finish(1400);

    assert_eq!(rep.header_blocks, 2);
    assert_eq!(rep.blocks_exact, 2);
    assert_eq!(rep.unresolved_refs, 0);

    let blocks = decode_output(&out);
    assert_eq!(blocks.len(), 2);
    assert_eq!(blocks[1][4], ("3gpp-sbi-target-apiroot".into(), "https://udm".into()));

    assert_eq!(records.len(), 2);
    assert!(records.iter().any(|l| l.headers.iter().any(|h| h.n == "3gpp-sbi-target-apiroot")));
}

/// An unusable snapshot must be ignored rather than applied at the wrong
/// offset, which would produce confident nonsense.
#[test]
fn unusable_snapshot_is_not_applied() {
    let (stream, off) = conversation();
    let inp = input_packets(BASE_SEQ + off as u32, &stream[off..]);
    let snap = snapshot(BASE_SEQ + off as u32, false);
    let (rep, _) = run(&inp, Some(snap), 1400);
    assert_eq!(rep.conns_seeded, 0);
    assert_eq!(rep.unresolved_refs, 2);
}

/// Ports get reused. A snapshot entry on a 5-tuple describes the
/// connection that was live when the snapshot was taken; if a *new*
/// connection appears on the same tuple during the capture, applying that
/// table would mean stale entries at a wrong offset - the exact failure
/// this whole design exists to prevent.
#[test]
fn snapshot_is_not_applied_to_a_new_connection_on_a_reused_tuple() {
    let (stream, _) = conversation();

    // Snapshot describes an earlier connection on this tuple.
    let snap = snapshot(BASE_SEQ + 999_999, true);

    // The capture contains a brand new connection: SYN then the full
    // conversation from byte one.
    let inp = packets_from_syn(&stream);
    let (rep, out) = run(&inp, Some(snap), 1400);

    assert_eq!(rep.conns_seeded, 0, "must not seed a connection we saw start");
    assert_eq!(rep.header_blocks, 2);
    assert_eq!(rep.blocks_exact, 2, "decoding from SYN is exact on its own");
    assert_eq!(rep.unresolved_refs, 0);

    // And the headers must be right, not the stale snapshot's values.
    let blocks = decode_output(&out);
    assert_eq!(blocks[1][3], (":authority".into(), "nrf.5gc".into()));
}

#[test]
fn an_unusable_snapshot_is_warned_of() {
    let (stream, off) = conversation();
    let snap = snapshot(BASE_SEQ + off as u32, false);
    let mut r = Rebuilder::new(Seeds::from_snapshot(&snap).ok().unwrap());
    let done = r.on_packet(&input_packets(BASE_SEQ + off as u32, &stream[off..])[0].1, 5).unwrap();
    assert_eq!(
        done.warning.unwrap(),
        "10.0.0.1:41234 -> 10.0.0.2:7777: snapshot not usable (test); decoding partially"
    );
    assert!(done.c2s);
    assert_eq!(done.client, SocketAddr::new(IpAddr::v4(10, 0, 0, 1), 41234));
}

#[test]
fn seeds_are_found_by_their_ends() {
    let seeds = Seeds::from_snapshot(&snapshot(7, true)).ok().unwrap();
    let s = seeds.get(CLIENT, SERVER).unwrap();
    assert_eq!((s.next_frame_seq, s.max_size, s.usable), (7, 4096, true));
    assert_eq!(s.entries[1].name_str(), ":authority");
    assert!(seeds.get(SERVER, CLIENT).is_none());
    assert!(Seeds::none().get(CLIENT, SERVER).is_none());
}

/// What precedes the recorded boundary is backfill: skipped, and counted.
#[test]
fn backfill_before_the_snapshot_is_counted() {
    let (stream, off) = conversation();
    let inp = input_packets(BASE_SEQ, &stream);
    let (rep, out) = run(&inp, Some(snapshot(BASE_SEQ + off as u32, true)), 1400);
    assert_eq!(rep.conns_seeded, 1);
    assert_eq!(rep.pre_snapshot_bytes, off as u64);
    assert_eq!(rep.pre_snapshot_dirs, 1);
    assert_eq!(rep.header_blocks, 1);
    assert_eq!(decode_output(&out)[0][3], (":authority".into(), "nrf.5gc".into()));
}

#[test]
fn a_capture_that_starts_too_late_is_reported() {
    let (stream, off) = conversation();
    let inp = input_packets(BASE_SEQ + off as u32, &stream[off..]);
    let (rep, _) = run(&inp, Some(snapshot(BASE_SEQ, true)), 1400);
    assert_eq!(rep.conns_misaligned, 1);
    assert_eq!(rep.blocks_exact, 0);
}

/// A block that cannot be decoded leaves a marker where it stood, in its own
/// direction.
#[test]
fn undecodable_blocks_leave_a_marker() {
    let mut stream = PREFACE.to_vec();
    stream.extend_from_slice(&build_frame(FrameType::HEADERS, flags::END_HEADERS, 1, &[0xc6]));
    let (rep, out) = run(&packets_from_syn(&stream), None, 1400);
    assert_eq!(rep.decode_failures, 1);
    assert_eq!(rep.header_blocks, 0);
    let blocks = decode_output(&out);
    assert_eq!(blocks.len(), 1);
    assert_eq!(blocks[0][0].0, "@hpack-decode-failed");
}

/// Handshake, data and teardown, with sequence numbers that follow each other
/// and the original time of each frame.
#[test]
fn the_rebuilt_connection_is_whole() {
    let (stream, _) = conversation();
    let (rep, out) = run(&packets_from_syn(&stream), None, 50);
    assert_eq!(rep.packets_in, 2);
    assert_eq!(rep.conns, 1);
    assert_eq!(rep.packets_out, out.len() as u64);

    let segs: Vec<_> = out.iter().map(|(_, p)| parse_ethernet(p).unwrap()).collect();
    assert_eq!(segs[0].flags, tcp_flags::SYN);
    assert_eq!(segs[0].seq, 0x1000_0000);
    assert_eq!(segs[1].flags, tcp_flags::SYN | tcp_flags::ACK);
    assert_eq!(segs[1].seq, 0x2000_0000);
    assert_eq!(segs[2].flags, tcp_flags::ACK);
    assert!(segs[segs.len() - 1].has(tcp_flags::ACK));
    assert!(segs.iter().filter(|s| s.has(tcp_flags::FIN)).count() == 2);

    let mut next = 0x1000_0001u32;
    let mut bytes = Vec::new();
    for s in segs.iter().filter(|s| s.src_port == 41234 && !s.payload.is_empty()) {
        assert!(s.payload.len() <= 50);
        assert_eq!(s.seq, next);
        next = next.wrapping_add(s.payload.len() as u32);
        bytes.extend_from_slice(s.payload);
    }
    assert_eq!(&bytes[..24], &PREFACE);
    // The preface goes out when the connection begins, the frames when they did.
    let times: Vec<u64> = out
        .iter()
        .zip(segs.iter())
        .filter(|(_, s)| s.src_port == 41234 && !s.payload.is_empty())
        .map(|((ts, _), _)| *ts)
        .collect();
    assert_eq!(times[0], 1000);
    assert!(times[1..].iter().all(|t| *t == 2000));
}

/// Packets of two connections are put in order of time, and each connection
/// keeps its own order.
#[test]
fn connections_are_interleaved_by_time() {
    let (stream, _) = conversation();
    let mut other = ep();
    other.src_port = 41235;
    let mut inp = packets_from_syn(&stream);
    let syn = build_tcp_packet(&other, 9, 0, tcp_flags::SYN, 65535, 0, &[]);
    let data = build_tcp_packet(&other, 10, 1, tcp_flags::ACK, 65535, 1, &stream);
    inp.insert(1, (1500, syn));
    inp.push((1600, data));
    let (rep, out) = run(&inp, None, 1400);
    assert_eq!(rep.conns, 2);
    assert_eq!(rep.header_blocks, 4);
    for port in [41234u16, 41235] {
        let mine: Vec<_> = out
            .iter()
            .map(|(_, p)| parse_ethernet(p).unwrap())
            .filter(|s| s.src_port == port || s.dst_port == port)
            .collect();
        assert_eq!(mine[0].flags, tcp_flags::SYN);
        assert_eq!(mine[1].flags, tcp_flags::SYN | tcp_flags::ACK);
    }
    let times: Vec<u64> = out.iter().map(|(t, _)| *t).collect();
    let mut sorted = times.clone();
    sorted.sort();
    assert_eq!(times, sorted);
}

/// A new SYN on the same ports is another connection.
#[test]
fn port_reuse_starts_afresh() {
    let (stream, _) = conversation();
    let mut inp = packets_from_syn(&stream);
    for (ts, p) in packets_from_syn(&stream) {
        inp.push((ts + 10_000, p));
    }
    let mut r = Rebuilder::new(Seeds::none());
    let mut exact = 0;
    for (ts, p) in &inp {
        if let Some(done) = r.on_packet(p, *ts) {
            exact += done.records(*ts).iter().filter(|x| x.hpack_exact).count();
        }
    }
    assert_eq!(exact, 4);

    // Both connections stand in the output, each with its own blocks.
    let (rep, out) = r.finish(1400);
    assert_eq!((rep.conns, rep.header_blocks, rep.decode_failures), (2, 4, 0));
    let conns = output_connections(&out);
    assert_eq!(conns.len(), 2);
    assert_eq!(decode_output(&conns[0]).len(), 2);
    assert_eq!(decode_output(&conns[1]).len(), 2);
    assert_eq!(decode_output(&conns[0]), decode_output(&conns[1]));
}

/// The rebuilt packets of each connection in turn: a client's SYN starts one.
fn output_connections(packets: &Packets) -> Vec<Packets> {
    let mut conns: Vec<Packets> = Vec::new();
    for (ts, p) in packets {
        let seg = parse_ethernet(p).unwrap();
        if seg.src_port == 41234 && seg.flags & tcp_flags::SYN != 0 {
            conns.push(Vec::new());
        }
        conns.last_mut().unwrap().push((*ts, p.clone()));
    }
    conns
}

/// The output holds as many header blocks as the report counts, decoded or not,
/// also where ports are used again.
#[test]
fn the_output_holds_the_reported_blocks() {
    let (stream, _) = conversation();
    let mut broken = PREFACE.to_vec();
    // Index 70 on a connection whose table is known in full.
    broken.extend_from_slice(&build_frame(FrameType::HEADERS, flags::END_HEADERS, 1, &[0xc6]));
    let mut inp = packets_from_syn(&stream);
    inp.extend(packets_from_syn(&broken).into_iter().map(|(ts, p)| (ts + 10_000, p)));
    inp.extend(packets_from_syn(&stream).into_iter().map(|(ts, p)| (ts + 20_000, p)));
    let (rep, out) = run(&inp, None, 1400);
    assert_eq!((rep.conns, rep.header_blocks, rep.decode_failures), (3, 4, 1));
    let blocks: Vec<usize> =
        output_connections(&out).iter().map(|c| decode_output(c).len()).collect();
    assert_eq!(blocks, vec![2, 1, 2]);
}

/// What a reader of a direction has: header lists, and the payloads between them.
fn told(frames: &[h2core::conn::ProcessedFrame]) -> Vec<(u32, Vec<(Vec<u8>, Vec<u8>)>, Vec<u8>)> {
    let mut out = Vec::new();
    for f in frames {
        if let Some(b) = &f.decoded {
            let list = b.fields.iter().map(|x| (x.name.clone(), x.value.clone())).collect();
            out.push((b.stream_id, list, Vec::new()));
        } else if !f.is_header_frame && !f.truncated {
            out.push((f.hdr.stream_id, Vec::new(), f.payload.clone()));
        }
    }
    out
}

/// Over a whole run, and in both directions: what was taken off the capture is
/// what a reader of the output takes off that, and a block that could not be
/// decoded is a marker.
#[test]
fn the_output_tells_what_was_taken() {
    let (stream, _) = conversation();
    let mut reply = build_frame(FrameType::SETTINGS, 0, 0, &[]);
    reply.extend_from_slice(&build_frame(FrameType::HEADERS, flags::END_HEADERS, 1, &[0x88]));
    reply.extend_from_slice(&build_frame(FrameType::DATA, 0, 1, b"ok"));
    // Index 70 on a connection whose table is known in full.
    reply.extend_from_slice(&build_frame(FrameType::HEADERS, flags::END_HEADERS, 3, &[0xc6]));
    let back = Endpoint {
        eth_dst: ep().eth_src,
        eth_src: ep().eth_dst,
        src_ip: ep().dst_ip,
        dst_ip: ep().src_ip,
        src_port: ep().dst_port,
        dst_port: ep().src_port,
    };
    let synack = tcp_flags::SYN | tcp_flags::ACK;
    let mut inp = packets_from_syn(&stream);
    inp.insert(1, (1500, build_tcp_packet(&back, 99, BASE_SEQ, synack, 65535, 0, &[])));
    inp.push((3000, build_tcp_packet(&back, 100, 1, tcp_flags::ACK, 65535, 1, &reply)));

    let mut r = Rebuilder::new(Seeds::none());
    let mut taken = [Vec::new(), Vec::new()];
    for (ts, p) in &inp {
        if let Some(done) = r.on_packet(p, *ts) {
            taken[if done.c2s { 0 } else { 1 }].extend(told(&done.frames));
        }
    }
    let (rep, out) = r.finish(50);
    assert_eq!((rep.header_blocks, rep.decode_failures), (3, 1));
    for (port, expect) in [(41234, &taken[0]), (7777, &taken[1])] {
        let mut reader = Direction::from_connection_start(true, port == 41234);
        let mut frames = Vec::new();
        for (_, p) in &out {
            let seg = parse_ethernet(p).unwrap();
            if seg.src_port == port && !seg.payload.is_empty() {
                frames.extend(reader.feed(seg.seq, seg.payload, 0));
            }
        }
        let mut read = told(&frames);
        if port == 7777 {
            let marker = read.pop().unwrap();
            assert_eq!(marker.0, 1);
            assert_eq!(marker.1[0].0, b"@hpack-decode-failed");
        }
        assert_eq!(&read, expect);
        assert_eq!(reader.dec.table_size(), 0);
        assert!(!reader.poisoned);
    }
}

#[test]
fn what_is_no_tcp_is_only_counted() {
    let mut r = Rebuilder::new(Seeds::none());
    assert!(r.on_packet(&[0; 60], 1).is_none());
    let (rep, out) = r.finish(1400);
    assert_eq!((rep.packets_in, rep.conns, rep.packets_out), (1, 0, 0));
    assert!(out.is_empty());
}

#[test]
fn records_say_what_was_decoded() {
    let (stream, _) = conversation();
    let mut r = Rebuilder::new(Seeds::none());
    let inp = packets_from_syn(&stream);
    r.on_packet(&inp[0].1, 1000);
    let done = r.on_packet(&inp[1].1, 2000).unwrap();
    let recs = done.records(2000);
    assert_eq!(recs[1].ts_us, 2000);
    assert_eq!(recs[1].conn, "10.0.0.1:41234-10.0.0.2:7777");
    assert_eq!(recs[1].dir, "c2s");
    assert_eq!((recs[1].stream, recs[1].end_stream), (3, true));
    assert_eq!(recs[1].kind, "headers");
    assert_eq!((recs[1].hpack_exact, recs[1].unresolved_refs), (true, 0));
    assert_eq!((recs[1].headers[0].n.as_str(), recs[1].headers[0].v.as_str()), (":method", "GET"));
    assert!(!recs[1].headers[0].unresolved);
}

fn block(fields: Vec<Field>, kind: BlockKind, promised: Option<u32>) -> DecodedBlock {
    DecodedBlock {
        stream_id: 5,
        fields,
        end_stream: true,
        kind,
        promised_stream_id: promised,
        exact: true,
        unresolved: 0,
    }
}

/// A block is cut into frames no longer than asked for, and reads back whole.
#[test]
fn long_blocks_are_cut_into_continuations() {
    let fields = vec![Field::new(b"a", &[b'x'; 100]), Field::new(b"b", b"y")];
    let frames = encode_block(&block(fields.clone(), BlockKind::Headers, None), 40);
    assert_eq!(frames.len(), 3);
    let h: Vec<FrameHeader> = frames.iter().map(|f| FrameHeader::parse(f).unwrap()).collect();
    assert_eq!((h[0].typ, h[0].flags), (FrameType::HEADERS, flags::END_STREAM));
    assert_eq!((h[1].typ, h[1].flags), (FrameType::CONTINUATION, 0));
    assert_eq!((h[2].typ, h[2].flags), (FrameType::CONTINUATION, flags::END_HEADERS));
    assert!(h.iter().all(|x| x.len <= 40 && x.stream_id == 5));

    let mut d = Direction::from_connection_start(true, false);
    let got = d.feed(1, &frames.concat(), 0);
    let b = got[2].decoded.as_ref().unwrap();
    assert_eq!(b.fields, fields);
    assert!(b.end_stream);
}

#[test]
fn a_push_promise_gets_its_promised_stream_back() {
    let fields = vec![Field::new(b":path", b"/x")];
    let frames = encode_block(&block(fields.clone(), BlockKind::PushPromise, Some(8)), 16384);
    assert_eq!(frames.len(), 1);
    let mut want = vec![0, 0, 0, 8];
    want.extend_from_slice(&encode_literal(&fields));
    assert_eq!(frames[0], build_frame(FrameType::PUSH_PROMISE, flags::END_HEADERS, 5, &want));
}

/// Where a snapshot speaks of a direction twice, the last word counts.
#[test]
fn the_last_seed_of_a_direction_counts() {
    let mut s = snapshot(7, true);
    s.conns.extend(snapshot(9, false).conns);
    let seeds = Seeds::from_snapshot(&s).ok().unwrap();
    let got = seeds.get(CLIENT, SERVER).unwrap();
    assert_eq!((got.next_frame_seq, got.usable), (9, false));
    assert_eq!(got.reason.as_deref(), Some("test"));
}
