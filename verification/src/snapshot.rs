//! The on-disk contract between the live keeper and the normalizer.
//!
//! A dynamic table is only meaningful at an exact byte position in the TCP
//! stream, so every direction snapshot carries `next_frame_seq`: the absolute
//! sequence number of the next frame boundary, as of which `entries` is the
//! table. The normalizer seeks to that byte before decoding anything. Without
//! it a snapshot would be worse than useless, because a table applied at the
//! wrong offset yields plausible headers that are wrong.
use vstd::prelude::*;
use vstd::string::*;
use vstd::utf8::*;

use crate::addr::{hex_char, push_hex_digit};
use crate::bytes::copy_bytes;
use crate::hpack::{fields_view, Field, FieldView};
use crate::text::same_text;

verus! {

pub const SNAPSHOT_VERSION: u32 = 1;

/// A header name or value. Plain text in the normal case; hex when the bytes
/// are not valid UTF-8, which HPACK permits even though HTTP field values in
/// practice are ASCII.
#[derive(Debug)]
pub enum Str {
    Text(String),
    Hex { hex: String },
}

/// The same as a mathematical value.
#[verifier::ext_equal]
pub enum StrView {
    Text(Seq<char>),
    Hex(Seq<char>),
}

impl View for Str {
    type V = StrView;

    open spec fn view(&self) -> StrView {
        match self {
            Str::Text(s) => StrView::Text(s@),
            Str::Hex { hex } => StrView::Hex(hex@),
        }
    }
}

impl Clone for Str {
    fn clone(&self) -> (r: Self)
        ensures
            r@ == self@,
    {
        match self {
            Str::Text(s) => Str::Text(s.clone()),
            Str::Hex { hex } => Str::Hex { hex: hex.clone() },
        }
    }
}

/// Bytes as hexadecimal text, two lower-case digits each.
pub open spec fn hex_text(b: Seq<u8>) -> Seq<char>
    decreases b.len(),
{
    if b.len() == 0 {
        Seq::empty()
    } else {
        hex_text(b.drop_last()) + seq![
            hex_char(b.last() as int / 16),
            hex_char(b.last() as int % 16),
        ]
    }
}

/// How bytes are written down.
pub open spec fn written(b: Seq<u8>) -> StrView {
    if valid_utf8(b) {
        StrView::Text(decode_utf8(b))
    } else {
        StrView::Hex(hex_text(b))
    }
}

/// The value of a hexadecimal digit of either case.
pub open spec fn hex_digit(c: u8) -> Option<u8> {
    if 0x30 <= c <= 0x39 {
        Some((c - 0x30) as u8)
    } else if 0x61 <= c <= 0x66 {
        Some((c - 0x61 + 10) as u8)
    } else if 0x41 <= c <= 0x46 {
        Some((c - 0x41 + 10) as u8)
    } else {
        None
    }
}

/// The byte that two characters, or a single one left over, stand for. A plus
/// sign may stand in front of a digit.
pub open spec fn hex_pair(p: Seq<u8>) -> Option<u8> {
    if p.len() == 1 {
        hex_digit(p[0])
    } else if p[0] == 0x2b {
        hex_digit(p[1])
    } else {
        match (hex_digit(p[0]), hex_digit(p[1])) {
            (Some(a), Some(b)) => Some((a * 16 + b) as u8),
            _ => None,
        }
    }
}

/// The bytes that hexadecimal text stands for. Pairs that are no number are
/// left out.
pub open spec fn hex_value(h: Seq<u8>) -> Seq<u8>
    decreases h.len(),
{
    if h.len() == 0 {
        Seq::empty()
    } else {
        let n = if h.len() == 1 {
            1int
        } else {
            2
        };
        let rest = hex_value(h.skip(n));
        match hex_pair(h.take(n)) {
            Some(x) => seq![x] + rest,
            None => rest,
        }
    }
}

/// The bytes that a written value stands for.
pub open spec fn read_back(s: StrView) -> Seq<u8> {
    match s {
        StrView::Text(t) => encode_utf8(t),
        StrView::Hex(h) => hex_value(encode_utf8(h)),
    }
}

/// Calls `std::str::from_utf8`.
///
/// Trusted: it succeeds on valid UTF-8 and on nothing else, and gives the text
/// that the bytes encode.
#[verifier::external_body]
fn utf8_text(b: &[u8]) -> (r: Option<&str>)
    ensures
        match r {
            Some(s) => valid_utf8(b@) && s@ == decode_utf8(b@),
            None => !valid_utf8(b@),
        },
{
    std::str::from_utf8(b).ok()
}

fn digit_value(c: u8) -> (r: Option<u8>)
    ensures
        r == hex_digit(c),
        r matches Some(d) ==> d < 16,
{
    if c >= 0x30 && c <= 0x39 {
        Some(c - 0x30)
    } else if c >= 0x61 && c <= 0x66 {
        Some(c - 0x61 + 10)
    } else if c >= 0x41 && c <= 0x46 {
        Some(c - 0x41 + 10)
    } else {
        None
    }
}

impl Str {
    /// Writes bytes down.
    pub fn from_bytes(b: &[u8]) -> (r: Str)
        ensures
            r@ == written(b@),
    {
        match utf8_text(b) {
            Some(s) => Str::Text(s.to_owned()),
            None => {
                let mut hex: String = String::new();
                let mut i: usize = 0;
                assert(hex@ =~= hex_text(b@.take(0)));
                while i < b.len()
                    invariant
                        i <= b@.len(),
                        hex@ == hex_text(b@.take(i as int)),
                    decreases b@.len() - i,
                {
                    let ghost before = hex@;
                    push_hex_digit(&mut hex, b[i] / 16);
                    push_hex_digit(&mut hex, b[i] % 16);
                    proof {
                        assert(b@.take(i + 1).drop_last() =~= b@.take(i as int));
                        assert(b@.take(i + 1).last() == b@[i as int]);
                        assert(hex@ =~= hex_text(b@.take(i + 1)));
                    }
                    i += 1;
                }
                assert(b@.take(b@.len() as int) =~= b@);
                Str::Hex { hex }
            },
        }
    }

    /// The bytes that were written down.
    pub fn to_bytes(&self) -> (r: Vec<u8>)
        ensures
            r@ == read_back(self@),
    {
        match self {
            Str::Text(s) => copy_bytes(s.as_str().as_bytes()),
            Str::Hex { hex } => {
                let h = hex.as_str().as_bytes();
                let mut out: Vec<u8> = Vec::new();
                let mut i: usize = 0;
                assert(h@.skip(0) =~= h@);
                assert(out@ + hex_value(h@) =~= hex_value(h@));
                while i < h.len()
                    invariant
                        i <= h@.len(),
                        out@ + hex_value(h@.skip(i as int)) == hex_value(h@),
                    decreases h@.len() - i,
                {
                    let ghost rest = h@.skip(i as int);
                    let ghost before = out@;
                    let left: usize = h.len() - i;
                    let n: usize = if left == 1 {
                        1
                    } else {
                        2
                    };
                    let x: Option<u8> = if n == 1 {
                        digit_value(h[i])
                    } else if h[i] == 0x2b {
                        digit_value(h[i + 1])
                    } else {
                        match (digit_value(h[i]), digit_value(h[i + 1])) {
                            (Some(a), Some(b)) => Some(a * 16 + b),
                            _ => None,
                        }
                    };
                    proof {
                        assert(rest.take(n as int)[0] == h@[i as int]);
                        assert(x == hex_pair(rest.take(n as int)));
                        assert(rest.skip(n as int) =~= h@.skip(i + n));
                    }
                    if let Some(x) = x {
                        out.push(x);
                        assert(before + (seq![x] + hex_value(h@.skip(i + n))) =~= out@ + hex_value(
                            h@.skip(i + n),
                        ));
                    }
                    i += n;
                }
                assert(out@ + Seq::<u8>::empty() =~= out@);
                out
            },
        }
    }
}

/// One dynamic table entry.
#[derive(Debug)]
pub struct Entry {
    pub n: Str,
    pub v: Str,
}

/// One dynamic table entry as a mathematical value.
#[verifier::ext_equal]
pub struct EntryView {
    pub n: StrView,
    pub v: StrView,
}

impl View for Entry {
    type V = EntryView;

    open spec fn view(&self) -> EntryView {
        EntryView { n: self.n@, v: self.v@ }
    }
}

/// How a table entry is written down.
pub open spec fn entry_of(f: FieldView) -> EntryView {
    EntryView { n: written(f.name), v: written(f.value) }
}

/// The field that an entry stands for.
pub open spec fn field_of(e: EntryView) -> FieldView {
    FieldView { name: read_back(e.n), value: read_back(e.v), sensitive: false, unknown: false }
}

/// What is known of one direction at the moment of a snapshot.
#[derive(Debug)]
pub struct DirSnapshot {
    /// "c2s" or "s2c".
    pub dir: String,
    pub src: String,
    pub dst: String,
    /// Absolute TCP sequence number of the next frame boundary. `entries` is
    /// the dynamic table as of this byte.
    pub next_frame_seq: u32,
    pub max_table_size: usize,
    /// True when `max_table_size` was learned from the wire rather than
    /// assumed to be the RFC default. Exactness claims rest on it being right.
    pub capacity_observed: bool,
    pub table_size: usize,
    /// False when this direction's table is not fully known. The normalizer
    /// still runs, but decodes partially.
    pub usable: bool,
    /// Why it is not usable, when it is not.
    pub reason: Option<String>,
    /// Newest first: index 62 is `entries[0]`, 63 is `entries[1]`, and so on.
    pub entries: Vec<Entry>,
}

/// The same as a mathematical value.
#[verifier::ext_equal]
pub struct DirSnapshotView {
    pub dir: Seq<char>,
    pub src: Seq<char>,
    pub dst: Seq<char>,
    pub next_frame_seq: u32,
    pub max_table_size: usize,
    pub capacity_observed: bool,
    pub table_size: int,
    pub usable: bool,
    pub reason: Option<Seq<char>>,
    pub entries: Seq<EntryView>,
}

/// The text of an optional string.
pub open spec fn text_of(s: Option<String>) -> Option<Seq<char>> {
    match s {
        Some(s) => Some(s@),
        None => None,
    }
}

/// The entries of a list, one by one.
pub open spec fn entries_view(s: Seq<Entry>) -> Seq<EntryView> {
    Seq::new(s.len(), |i: int| s[i]@)
}

impl View for DirSnapshot {
    type V = DirSnapshotView;

    open spec fn view(&self) -> DirSnapshotView {
        DirSnapshotView {
            dir: self.dir@,
            src: self.src@,
            dst: self.dst@,
            next_frame_seq: self.next_frame_seq,
            max_table_size: self.max_table_size,
            capacity_observed: self.capacity_observed,
            table_size: self.table_size as int,
            usable: self.usable,
            reason: text_of(self.reason),
            entries: entries_view(self.entries@),
        }
    }
}

/// The table that written entries stand for.
pub open spec fn table_of(entries: Seq<EntryView>) -> Seq<FieldView> {
    Seq::new(entries.len(), |i: int| field_of(entries[i]))
}

impl DirSnapshot {
    /// The table entries as fields.
    pub fn fields(&self) -> (r: Vec<Field>)
        ensures
            fields_view(r@) == table_of(self@.entries),
    {
        let mut out: Vec<Field> = Vec::new();
        let mut i: usize = 0;
        while i < self.entries.len()
            invariant
                i <= self.entries@.len(),
                fields_view(out@) == table_of(self@.entries).take(i as int),
            decreases self.entries@.len() - i,
        {
            let e = &self.entries[i];
            let ghost before = fields_view(out@);
            let f = Field::new(&e.n.to_bytes(), &e.v.to_bytes());
            let ghost fv = f@;
            out.push(f);
            proof {
                assert(fields_view(out@) =~= before.push(fv));
                assert(table_of(self@.entries).take(i + 1) =~= table_of(self@.entries).take(
                    i as int,
                ).push(fv));
            }
            i += 1;
        }
        assert(table_of(self@.entries).take(self.entries@.len() as int) =~= table_of(
            self@.entries,
        ));
        out
    }
}

/// What is known of one connection at the moment of a snapshot.
#[derive(Debug)]
pub struct ConnSnapshot {
    /// Stable across the connection's life and unique over time: a 5-tuple
    /// alone is not, because ports get reused.
    pub conn_id: String,
    pub client: String,
    pub server: String,
    pub first_seen_unix_us: u64,
    pub dirs: Vec<DirSnapshot>,
}

/// The same as a mathematical value.
#[verifier::ext_equal]
pub struct ConnSnapshotView {
    pub conn_id: Seq<char>,
    pub client: Seq<char>,
    pub server: Seq<char>,
    pub first_seen_unix_us: u64,
    pub dirs: Seq<DirSnapshotView>,
}

impl View for ConnSnapshot {
    type V = ConnSnapshotView;

    open spec fn view(&self) -> ConnSnapshotView {
        ConnSnapshotView {
            conn_id: self.conn_id@,
            client: self.client@,
            server: self.server@,
            first_seen_unix_us: self.first_seen_unix_us,
            dirs: Seq::new(self.dirs@.len(), |i: int| self.dirs@[i]@),
        }
    }
}

/// The connections of a list, one by one.
pub open spec fn conns_view(s: Seq<ConnSnapshot>) -> Seq<ConnSnapshotView> {
    Seq::new(s.len(), |i: int| s[i]@)
}

/// Everything that is known at the moment a capture starts.
#[derive(Debug)]
pub struct CaptureSnapshot {
    pub version: u32,
    pub capture_id: String,
    pub started_unix_us: u64,
    pub iface: String,
    pub pcap_path: String,
    /// Connections whose tables are fully known and safe to rebuild.
    pub conns_usable: usize,
    /// Connections with at least one direction we cannot vouch for.
    pub conns_degraded: usize,
    pub conns: Vec<ConnSnapshot>,
}

impl CaptureSnapshot {
    /// The first connection with this id.
    pub fn find(&self, conn_id: &str) -> (r: Option<&ConnSnapshot>)
        ensures
            match r {
                Some(c) => exists|i: int|
                    {
                        &&& 0 <= i < self.conns@.len()
                        &&& #[trigger] self.conns@[i] == *c
                        &&& c.conn_id@ == conn_id@
                        &&& forall|j: int| 0 <= j < i ==> self.conns@[j].conn_id@ != conn_id@
                    },
                None => forall|i: int|
                    0 <= i < self.conns@.len() ==> (#[trigger] self.conns@[i]).conn_id@
                        != conn_id@,
            },
    {
        let mut i: usize = 0;
        while i < self.conns.len()
            invariant
                i <= self.conns@.len(),
                forall|j: int|
                    0 <= j < i ==> (#[trigger] self.conns@[j]).conn_id@ != conn_id@,
            decreases self.conns@.len() - i,
        {
            if same_text(self.conns[i].conn_id.as_str(), conn_id) {
                assert(self.conns@[i as int].conn_id@ == conn_id@);
                return Some(&self.conns[i]);
            }
            i += 1;
        }
        None
    }
}

// ---------------------------------------------------------------------------
// Laws
// ---------------------------------------------------------------------------

proof fn lemma_hex_value_concat(a: Seq<u8>, b: Seq<u8>)
    requires
        a.len() % 2 == 0,
    ensures
        hex_value(a + b) == hex_value(a) + hex_value(b),
    decreases a.len(),
{
    if a.len() == 0 {
        assert(a + b =~= b);
        assert(hex_value(a) + hex_value(b) =~= hex_value(b));
    } else {
        assert((a + b).skip(2) =~= a.skip(2) + b);
        assert((a + b).take(2) =~= a.take(2));
        lemma_hex_value_concat(a.skip(2), b);
        let rest = hex_value(a.skip(2));
        match hex_pair(a.take(2)) {
            Some(x) => {
                assert(seq![x] + (rest + hex_value(b)) =~= seq![x] + rest + hex_value(b));
            },
            None => {},
        }
    }
}

proof fn lemma_hex_char(d: int)
    requires
        0 <= d < 16,
    ensures
        (hex_char(d) as u32) < 0x80,
        hex_digit(hex_char(d) as u8) == Some(d as u8),
        hex_char(d) as u8 != 0x2b,
{
}

proof fn lemma_hex_text(b: Seq<u8>)
    ensures
        is_ascii_chars(hex_text(b)),
        hex_text(b).len() == 2 * b.len(),
        hex_value(hex_text(b).map_values(|c: char| c as u8)) == b,
    decreases b.len(),
{
    let f = |c: char| c as u8;
    if b.len() == 0 {
        assert(hex_text(b).map_values(f) =~= Seq::<u8>::empty());
        assert(b =~= Seq::<u8>::empty());
    } else {
        let x = b.last();
        let p = b.drop_last();
        lemma_hex_text(p);
        lemma_hex_char(x as int / 16);
        lemma_hex_char(x as int % 16);
        let two = seq![hex_char(x as int / 16), hex_char(x as int % 16)];
        let pair = two.map_values(f);
        assert(hex_text(b).map_values(f) =~= hex_text(p).map_values(f) + pair);
        lemma_hex_value_concat(hex_text(p).map_values(f), pair);
        assert(pair.take(2) =~= pair);
        assert(pair.skip(2) =~= Seq::<u8>::empty());
        assert(hex_value(pair.skip(2)) =~= Seq::<u8>::empty());
        assert(hex_pair(pair) == Some(x));
        assert(hex_value(pair) =~= seq![x]);
        assert(p + seq![x] =~= b);
    }
}

/// Every name and every value comes back from a snapshot as the bytes that went
/// in, text or not.
pub proof fn law_str_round_trip(b: Seq<u8>)
    ensures
        read_back(written(b)) == b,
{
    if valid_utf8(b) {
        decode_utf8_encode_utf8(b);
    } else {
        lemma_hex_text(b);
        is_ascii_chars_encode_utf8(hex_text(b));
        assert(encode_utf8(hex_text(b)) =~= hex_text(b).map_values(|c: char| c as u8));
    }
}

/// A whole table comes back from a snapshot as it went in, if no entry carries
/// a mark of its own.
pub proof fn law_table_round_trip(t: Seq<FieldView>)
    requires
        forall|i: int|
            0 <= i < t.len() ==> !(#[trigger] t[i]).sensitive && !t[i].unknown,
    ensures
        table_of(Seq::new(t.len(), |i: int| entry_of(t[i]))) == t,
{
    let es = Seq::new(t.len(), |i: int| entry_of(t[i]));
    assert forall|i: int| 0 <= i < t.len() implies #[trigger] table_of(es)[i] == t[i] by {
        law_str_round_trip(t[i].name);
        law_str_round_trip(t[i].value);
    }
    assert(table_of(es) =~= t);
}

} // verus!
