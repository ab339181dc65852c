//! Snapshots, and that they survive being written as JSON.

use h2core::snapshot::{
    CaptureSnapshot, ConnSnapshot, DirSnapshot, Entry, Str, SNAPSHOT_VERSION,
};
use serde_json::Value;

fn object(pairs: Vec<(&str, Value)>) -> Value {
    let mut m = serde_json::Map::new();
    for (k, v) in pairs {
        m.insert(k.to_string(), v);
    }
    Value::Object(m)
}

fn str_json(s: &Str) -> Value {
    match s {
        Str::Text(t) => Value::from(t.as_str()),
        Str::Hex { hex } => object(vec![("hex", Value::from(hex.as_str()))]),
    }
}

fn str_back(v: &Value) -> Str {
    match v.as_str() {
        Some(t) => Str::Text(t.to_string()),
        None => Str::Hex { hex: text(&v["hex"]) },
    }
}

fn text(v: &Value) -> String {
    v.as_str().unwrap().to_string()
}

fn list<T>(v: &[T], f: fn(&T) -> Value) -> Value {
    Value::Array(v.iter().map(f).collect())
}

fn list_back<T>(v: &Value, f: fn(&Value) -> T) -> Vec<T> {
    v.as_array().unwrap().iter().map(f).collect()
}

fn entry_json(e: &Entry) -> Value {
    object(vec![("n", str_json(&e.n)), ("v", str_json(&e.v))])
}

fn entry_back(v: &Value) -> Entry {
    Entry { n: str_back(&v["n"]), v: str_back(&v["v"]) }
}

fn dir_json(d: &DirSnapshot) -> Value {
    object(vec![
        ("dir", Value::from(d.dir.as_str())),
        ("src", Value::from(d.src.as_str())),
        ("dst", Value::from(d.dst.as_str())),
        ("next_frame_seq", Value::from(d.next_frame_seq)),
        ("max_table_size", Value::from(d.max_table_size)),
        ("capacity_observed", Value::from(d.capacity_observed)),
        ("table_size", Value::from(d.table_size)),
        ("usable", Value::from(d.usable)),
        ("reason", Value::from(d.reason.clone())),
        ("entries", list(&d.entries, entry_json)),
    ])
}

fn dir_back(v: &Value) -> DirSnapshot {
    DirSnapshot {
        dir: text(&v["dir"]),
        src: text(&v["src"]),
        dst: text(&v["dst"]),
        next_frame_seq: v["next_frame_seq"].as_u64().unwrap() as u32,
        max_table_size: v["max_table_size"].as_u64().unwrap() as usize,
        capacity_observed: v["capacity_observed"].as_bool().unwrap(),
        table_size: v["table_size"].as_u64().unwrap() as usize,
        usable: v["usable"].as_bool().unwrap(),
        reason: v["reason"].as_str().map(|r| r.to_string()),
        entries: list_back(&v["entries"], entry_back),
    }
}

fn conn_json(c: &ConnSnapshot) -> Value {
    object(vec![
        ("conn_id", Value::from(c.conn_id.as_str())),
        ("client", Value::from(c.client.as_str())),
        ("server", Value::from(c.server.as_str())),
        ("first_seen_unix_us", Value::from(c.first_seen_unix_us)),
        ("dirs", list(&c.dirs, dir_json)),
    ])
}

fn conn_back(v: &Value) -> ConnSnapshot {
    ConnSnapshot {
        conn_id: text(&v["conn_id"]),
        client: text(&v["client"]),
        server: text(&v["server"]),
        first_seen_unix_us: v["first_seen_unix_us"].as_u64().unwrap(),
        dirs: list_back(&v["dirs"], dir_back),
    }
}

fn snapshot_json(s: &CaptureSnapshot) -> Value {
    object(vec![
        ("version", Value::from(s.version)),
        ("capture_id", Value::from(s.capture_id.as_str())),
        ("started_unix_us", Value::from(s.started_unix_us)),
        ("iface", Value::from(s.iface.as_str())),
        ("pcap_path", Value::from(s.pcap_path.as_str())),
        ("conns_usable", Value::from(s.conns_usable)),
        ("conns_degraded", Value::from(s.conns_degraded)),
        ("conns", list(&s.conns, conn_json)),
    ])
}

fn snapshot_back(v: &Value) -> CaptureSnapshot {
    CaptureSnapshot {
        version: v["version"].as_u64().unwrap() as u32,
        capture_id: text(&v["capture_id"]),
        started_unix_us: v["started_unix_us"].as_u64().unwrap(),
        iface: text(&v["iface"]),
        pcap_path: text(&v["pcap_path"]),
        conns_usable: v["conns_usable"].as_u64().unwrap() as usize,
        conns_degraded: v["conns_degraded"].as_u64().unwrap() as usize,
        conns: list_back(&v["conns"], conn_back),
    }
}

#[test]
fn text_and_binary_round_trip() {
    let t = Str::from_bytes(b"application/json");
    let b = Str::from_bytes(&[0xff, 0x00, 0x41]);
    assert!(matches!(t, Str::Text(_)));
    assert!(matches!(b, Str::Hex { .. }));
    assert_eq!(t.to_bytes(), b"application/json");
    assert_eq!(b.to_bytes(), vec![0xff, 0x00, 0x41]);

    let json = serde_json::to_string(&str_json(&b)).unwrap();
    let back = str_back(&serde_json::from_str::<Value>(&json).unwrap());
    assert_eq!(back.to_bytes(), vec![0xff, 0x00, 0x41]);
}

fn sample() -> CaptureSnapshot {
    CaptureSnapshot {
        version: SNAPSHOT_VERSION,
        capture_id: "cap-1".into(),
        started_unix_us: 1,
        iface: "eth0".into(),
        pcap_path: "/tmp/x.pcap".into(),
        conns_usable: 1,
        conns_degraded: 0,
        conns: vec![ConnSnapshot {
            conn_id: "a".into(),
            client: "10.0.0.1:5000".into(),
            server: "10.0.0.2:7777".into(),
            first_seen_unix_us: 1,
            dirs: vec![DirSnapshot {
                dir: "c2s".into(),
                src: "10.0.0.1:5000".into(),
                dst: "10.0.0.2:7777".into(),
                next_frame_seq: 4_294_967_000,
                max_table_size: 4096,
                capacity_observed: true,
                table_size: 57,
                usable: true,
                reason: None,
                entries: vec![Entry {
                    n: Str::from_bytes(b":authority"),
                    v: Str::from_bytes(b"nrf.5gc"),
                }],
            }],
        }],
    }
}

#[test]
fn snapshot_json_round_trips() {
    let s = sample();
    let j = serde_json::to_string(&snapshot_json(&s)).unwrap();
    let back = snapshot_back(&serde_json::from_str::<Value>(&j).unwrap());
    assert_eq!(back.conns[0].dirs[0].next_frame_seq, 4_294_967_000);
    assert_eq!(back.find("a").unwrap().dirs[0].fields()[0].name_str(), ":authority");
}

#[test]
fn an_unknown_connection_is_not_found() {
    assert!(sample().find("b").is_none());
}

/// Every byte sequence comes back as it went in.
#[test]
fn bytes_come_back() {
    let all: Vec<u8> = (0..=255).collect();
    for b in [&b""[..], b"x", "gr\u{fc}n".as_bytes(), &[0xc3], &all] {
        assert_eq!(Str::from_bytes(b).to_bytes(), b);
    }
}

#[test]
fn what_is_no_text_is_written_in_hex() {
    match Str::from_bytes(&[0xff, 0x00, 0x4a]) {
        Str::Hex { hex } => assert_eq!(hex, "ff004a"),
        Str::Text(t) => panic!("{t}"),
    }
}

/// Digit pairs that are none are left out; a last digit without partner counts
/// alone.
#[test]
fn broken_hex_loses_only_what_is_broken() {
    assert_eq!(Str::Hex { hex: "41zz42".into() }.to_bytes(), vec![0x41, 0x42]);
    assert_eq!(Str::Hex { hex: "FFa".into() }.to_bytes(), vec![0xff, 0x0a]);
}
