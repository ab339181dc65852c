//! Decoded header blocks as records, one per block, for those who would rather
//! grep or diff than click.
use vstd::prelude::*;
use vstd::string::*;

use crate::addr::{addr_text, SocketAddr};
use crate::conn::{frames_view, BlockKind, DecodedBlock, DecodedBlockView, ProcessedFrameView};
use crate::hpack::{append_cow, lossy_text, FieldView};
use crate::pkt::SegmentView;
use crate::rebuild::replay::{reported, ConnStateView, Replayed};
use crate::rebuild::seeds::{Route, SeedView};

verus! {

/// One header field.
#[derive(Debug)]
pub struct HeaderRecord {
    pub n: String,
    pub v: String,
    pub unresolved: bool,
}

/// The same as a mathematical value.
#[verifier::ext_equal]
pub struct HeaderRecordView {
    pub n: Seq<char>,
    pub v: Seq<char>,
    pub unresolved: bool,
}

impl View for HeaderRecord {
    type V = HeaderRecordView;

    open spec fn view(&self) -> HeaderRecordView {
        HeaderRecordView { n: self.n@, v: self.v@, unresolved: self.unresolved }
    }
}

/// One header block.
#[derive(Debug)]
pub struct BlockRecord {
    pub ts_us: u64,
    pub conn: String,
    pub dir: String,
    pub stream: u32,
    pub kind: String,
    pub end_stream: bool,
    pub hpack_exact: bool,
    pub unresolved_refs: usize,
    pub headers: Vec<HeaderRecord>,
}

/// The same as a mathematical value.
#[verifier::ext_equal]
pub struct BlockRecordView {
    pub ts_us: u64,
    pub conn: Seq<char>,
    pub dir: Seq<char>,
    pub stream: u32,
    pub kind: Seq<char>,
    pub end_stream: bool,
    pub hpack_exact: bool,
    pub unresolved_refs: int,
    pub headers: Seq<HeaderRecordView>,
}

/// The fields of a list, one by one.
pub open spec fn header_records_view(s: Seq<HeaderRecord>) -> Seq<HeaderRecordView> {
    Seq::new(s.len(), |i: int| s[i]@)
}

impl View for BlockRecord {
    type V = BlockRecordView;

    open spec fn view(&self) -> BlockRecordView {
        BlockRecordView {
            ts_us: self.ts_us,
            conn: self.conn@,
            dir: self.dir@,
            stream: self.stream,
            kind: self.kind@,
            end_stream: self.end_stream,
            hpack_exact: self.hpack_exact,
            unresolved_refs: self.unresolved_refs as int,
            headers: header_records_view(self.headers@),
        }
    }
}

/// The record of a field.
pub open spec fn header_record(f: FieldView) -> HeaderRecordView {
    HeaderRecordView { n: lossy_text(f.name), v: lossy_text(f.value), unresolved: f.unknown }
}

/// The record of a block.
pub open spec fn block_record(
    ts: u64,
    client: SocketAddr,
    server: SocketAddr,
    c2s: bool,
    b: DecodedBlockView,
) -> BlockRecordView {
    BlockRecordView {
        ts_us: ts,
        conn: addr_text(client) + "-"@ + addr_text(server),
        dir: if c2s {
            "c2s"@
        } else {
            "s2c"@
        },
        stream: b.stream_id,
        kind: match b.kind {
            BlockKind::Headers => "headers"@,
            BlockKind::Trailers => "trailers"@,
            BlockKind::PushPromise => "push_promise"@,
        },
        end_stream: b.end_stream,
        hpack_exact: b.exact,
        unresolved_refs: b.unresolved,
        headers: Seq::new(b.fields.len(), |i: int| header_record(b.fields[i])),
    }
}

/// The records of the blocks that a list of frames completes.
pub open spec fn block_records(
    ts: u64,
    client: SocketAddr,
    server: SocketAddr,
    c2s: bool,
    fs: Seq<ProcessedFrameView>,
) -> Seq<BlockRecordView>
    decreases fs.len(),
{
    if fs.len() == 0 {
        Seq::empty()
    } else {
        let before = block_records(ts, client, server, c2s, fs.drop_last());
        let f = fs.last();
        if !f.truncated && f.is_header_frame && f.decoded is Some {
            before.push(block_record(ts, client, server, c2s, f.decoded->Some_0))
        } else {
            before
        }
    }
}

/// The records of a list, one by one.
pub open spec fn records_view(s: Seq<BlockRecord>) -> Seq<BlockRecordView> {
    Seq::new(s.len(), |i: int| s[i]@)
}

/// The records of the fields of a block.
fn header_records(b: &DecodedBlock) -> (r: Vec<HeaderRecord>)
    ensures
        header_records_view(r@) == Seq::new(
            b@.fields.len(),
            |i: int| header_record(b@.fields[i]),
        ),
{
    let ghost all = Seq::new(b@.fields.len(), |i: int| header_record(b@.fields[i]));
    let mut out: Vec<HeaderRecord> = Vec::new();
    let mut i: usize = 0;
    while i < b.fields.len()
        invariant
            i <= b.fields@.len(),
            all == Seq::new(b@.fields.len(), |i: int| header_record(b@.fields[i])),
            header_records_view(out@) == all.take(i as int),
        decreases b.fields@.len() - i,
    {
        let f = &b.fields[i];
        let ghost before = header_records_view(out@);
        let mut n: String = String::new();
        append_cow(&mut n, f.name_str());
        let mut v: String = String::new();
        append_cow(&mut v, f.value_str());
        assert(n@ =~= lossy_text(f.name@));
        assert(v@ =~= lossy_text(f.value@));
        let rec = HeaderRecord { n, v, unresolved: f.unknown };
        let ghost rv = rec@;
        out.push(rec);
        proof {
            assert(rv =~= all[i as int]);
            assert(header_records_view(out@) =~= before.push(rv));
            assert(all.take(i + 1) =~= all.take(i as int).push(all[i as int]));
        }
        i += 1;
    }
    assert(all.take(all.len() as int) =~= all);
    out
}

/// The record of a block.
pub fn record_of(
    ts: u64,
    client: &SocketAddr,
    server: &SocketAddr,
    c2s: bool,
    b: &DecodedBlock,
) -> (r: BlockRecord)
    ensures
        r@ == block_record(ts, *client, *server, c2s, b@),
{
    let mut conn: String = client.text();
    conn.append("-");
    server.push_text(&mut conn);
    let kind: &str = match b.kind {
        BlockKind::Headers => "headers",
        BlockKind::Trailers => "trailers",
        BlockKind::PushPromise => "push_promise",
    };
    let dir: &str = if c2s {
        "c2s"
    } else {
        "s2c"
    };
    BlockRecord {
        ts_us: ts,
        conn,
        dir: dir.to_owned(),
        stream: b.stream_id,
        kind: kind.to_owned(),
        end_stream: b.end_stream,
        hpack_exact: b.exact,
        unresolved_refs: b.unresolved,
        headers: header_records(b),
    }
}

impl Replayed {
    /// The records of the blocks that the packet completed.
    pub fn records(&self, ts: u64) -> (r: Vec<BlockRecord>)
        ensures
            records_view(r@) == block_records(
                ts,
                self.client,
                self.server,
                self.c2s,
                frames_view(self.frames@),
            ),
    {
        let ghost fs = frames_view(self.frames@);
        let mut out: Vec<BlockRecord> = Vec::new();
        let mut i: usize = 0;
        assert(records_view(out@) =~= Seq::<BlockRecordView>::empty());
        while i < self.frames.len()
            invariant
                i <= self.frames@.len(),
                fs == frames_view(self.frames@),
                records_view(out@) == block_records(
                    ts,
                    self.client,
                    self.server,
                    self.c2s,
                    fs.take(i as int),
                ),
            decreases self.frames@.len() - i,
        {
            let f = &self.frames[i];
            proof {
                assert(fs.take(i + 1).drop_last() =~= fs.take(i as int));
                assert(fs.take(i + 1).last() == f@);
            }
            if !f.truncated && f.is_header_frame {
                if let Some(b) = &f.decoded {
                    let ghost before = records_view(out@);
                    let rec = record_of(ts, &self.client, &self.server, self.c2s, b);
                    let ghost rv = rec@;
                    out.push(rec);
                    assert(records_view(out@) =~= before.push(rv));
                }
            }
            i += 1;
        }
        assert(fs.take(fs.len() as int) =~= fs);
        out
    }
}

// ---------------------------------------------------------------------------
// What records say
// ---------------------------------------------------------------------------

/// Whether a frame completes a header block that was decoded.
pub open spec fn completes_block(f: ProcessedFrameView) -> bool {
    !f.truncated && f.is_header_frame && f.decoded is Some
}

/// How many frames of a list do.
pub open spec fn blocks_completed(fs: Seq<ProcessedFrameView>) -> nat
    decreases fs.len(),
{
    if fs.len() == 0 {
        0
    } else {
        blocks_completed(fs.drop_last()) + if completes_block(fs.last()) {
            1nat
        } else {
            0nat
        }
    }
}

/// Whether a record says what a block says: its stream, whether it ends it, how sure
/// the decoding is, and every field in order, with a mark on those that could not be
/// resolved.
pub open spec fn says_what_block_says(rec: BlockRecordView, b: DecodedBlockView) -> bool {
    &&& rec.stream == b.stream_id
    &&& rec.end_stream == b.end_stream
    &&& rec.hpack_exact == b.exact
    &&& rec.unresolved_refs == b.unresolved
    &&& rec.headers.len() == b.fields.len()
    &&& forall|k: int|
        0 <= k < b.fields.len() ==> {
            &&& (#[trigger] rec.headers[k]).n == lossy_text(b.fields[k].name)
            &&& rec.headers[k].v == lossy_text(b.fields[k].value)
            &&& rec.headers[k].unresolved == b.fields[k].unknown
        }
    &&& rec.kind == "headers"@ <==> b.kind == BlockKind::Headers
    &&& rec.kind == "trailers"@ <==> b.kind == BlockKind::Trailers
    &&& rec.kind == "push_promise"@ <==> b.kind == BlockKind::PushPromise
}

proof fn lemma_words_differ()
    ensures
        "c2s"@ != "s2c"@,
        "headers"@ != "trailers"@,
        "headers"@ != "push_promise"@,
        "trailers"@ != "push_promise"@,
{
    reveal_strlit("c2s");
    reveal_strlit("s2c");
    reveal_strlit("headers");
    reveal_strlit("trailers");
    reveal_strlit("push_promise");
    assert("c2s"@[0] != "s2c"@[0]);
    assert("headers"@.len() == 7);
    assert("trailers"@.len() == 8);
    assert("push_promise"@.len() == 12);
}

proof fn lemma_record_of_block(
    ts: u64,
    client: SocketAddr,
    server: SocketAddr,
    c2s: bool,
    fs: Seq<ProcessedFrameView>,
    i: int,
) -> (j: int)
    requires
        0 <= i < block_records(ts, client, server, c2s, fs).len(),
    ensures
        block_records(ts, client, server, c2s, fs).len() == blocks_completed(fs),
        0 <= j < fs.len(),
        completes_block(fs[j]),
        blocks_completed(fs.take(j)) == i,
        says_what_block_says(
            block_records(ts, client, server, c2s, fs)[i],
            fs[j].decoded->Some_0,
        ),
        block_records(ts, client, server, c2s, fs)[i] == block_record(
            ts,
            client,
            server,
            c2s,
            fs[j].decoded->Some_0,
        ),
    decreases fs.len(),
{
    let front = fs.drop_last();
    let before = block_records(ts, client, server, c2s, front);
    lemma_words_differ();
    lemma_record_count(ts, client, server, c2s, front);
    if i < before.len() {
        let j = lemma_record_of_block(ts, client, server, c2s, front, i);
        assert(front.take(j) =~= fs.take(j));
        j
    } else {
        assert(fs.take(fs.len() - 1) =~= front);
        fs.len() - 1
    }
}

proof fn lemma_record_count(
    ts: u64,
    client: SocketAddr,
    server: SocketAddr,
    c2s: bool,
    fs: Seq<ProcessedFrameView>,
)
    ensures
        block_records(ts, client, server, c2s, fs).len() == blocks_completed(fs),
    decreases fs.len(),
{
    if fs.len() > 0 {
        lemma_record_count(ts, client, server, c2s, fs.drop_last());
    }
}

/// There is one record to each header block that a packet completes and that was
/// decoded, in their order, and each says what its block says: the time of the
/// packet, the connection, its client first, and the direction that the packet came
/// in. That is `s2c` exactly where the packet's source is not the connection's
/// client, and `c2s` exactly where it is. Gives the position of the frame that
/// completed the block.
pub proof fn law_records_say_what_was_decoded(
    n: Replayed,
    seeds: Map<Route, SeedView>,
    c: ConnStateView,
    s: SegmentView,
    ts: u64,
    i: int,
) -> (j: int)
    requires
        reported(n, seeds, c, s, ts),
        0 <= i < block_records(ts, n.client, n.server, n.c2s, frames_view(n.frames@)).len(),
    ensures
        ({
            let fs = frames_view(n.frames@);
            let recs = block_records(ts, n.client, n.server, n.c2s, fs);
            let src = SocketAddr { ip: s.src_ip, port: s.src_port };
            &&& recs.len() == blocks_completed(fs)
            &&& 0 <= j < fs.len()
            &&& completes_block(fs[j])
            &&& blocks_completed(fs.take(j)) == i
            &&& says_what_block_says(recs[i], fs[j].decoded->Some_0)
            &&& recs[i].ts_us == ts
            &&& recs[i].conn == addr_text(c.client) + "-"@ + addr_text(c.server)
            &&& recs[i].dir == "s2c"@ <==> src != c.client
            &&& recs[i].dir == "c2s"@ <==> src == c.client
        }),
{
    lemma_words_differ();
    lemma_record_of_block(ts, n.client, n.server, n.c2s, frames_view(n.frames@), i)
}

/// The records of one block differ in the direction alone, if it came the one way or
/// the other, and they do differ in it.
pub proof fn law_records_of_both_directions_differ(
    ts: u64,
    client: SocketAddr,
    server: SocketAddr,
    b: DecodedBlockView,
)
    ensures
        ({
            let there = block_record(ts, client, server, true, b);
            let back = block_record(ts, client, server, false, b);
            &&& there.dir != back.dir
            &&& there == (BlockRecordView { dir: there.dir, ..back })
        }),
{
    lemma_words_differ();
}

} // verus!
