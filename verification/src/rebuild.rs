//! Turn a capture and its snapshot into a capture whose headers decode
//! standalone.
//!
//! Every header block is re-encoded as literals with no indexing and no
//! Huffman, so the output needs no dynamic table at all and can be opened at
//! any point. Because that changes header block lengths, the TCP stream shifts
//! and the packets cannot be patched in place; the connection is synthesized
//! instead, preserving MACs, addresses, ports, stream ids, frame order and
//! timestamps, with fresh sequence numbers and recomputed checksums.
//!
//! The output is an analysis artifact, not a wire replica. Do not use it to
//! argue about anything TCP-level: packet boundaries, window behaviour and
//! retransmissions are all synthetic.
use vstd::prelude::*;

pub mod counting;
pub mod encode;
pub mod laws;
pub mod order;
pub mod record;
pub mod replay;
pub mod routing;
pub mod seeds;
pub mod synth;
pub mod synth_laws;
pub mod telling;
pub mod timing;

pub use encode::encode_block;
pub use replay::{ConnState, DirState, Rebuilder, Replayed};
pub use seeds::{Seed, Seeds, TableTooLarge};

verus! {

/// What a rebuild came to. The counters wrap.
#[derive(Debug, Clone, Copy, PartialEq, Eq, Structural)]
pub struct Report {
    pub packets_in: u64,
    pub conns: usize,
    /// Directions that were seeded from the snapshot.
    pub conns_seeded: usize,
    pub conns_misaligned: usize,
    pub header_blocks: usize,
    pub blocks_exact: usize,
    pub blocks_partial: usize,
    pub unresolved_refs: usize,
    pub decode_failures: usize,
    pub frames_dropped: usize,
    pub packets_out: u64,
    /// Bytes of ring backfill that precede a snapshot point, and the number of
    /// directions affected. Header blocks wholly inside this region cannot be
    /// decoded and are not emitted.
    pub pre_snapshot_bytes: u64,
    pub pre_snapshot_dirs: usize,
}

/// The report before anything has happened.
pub open spec fn empty_report() -> Report {
    Report {
        packets_in: 0,
        conns: 0,
        conns_seeded: 0,
        conns_misaligned: 0,
        header_blocks: 0,
        blocks_exact: 0,
        blocks_partial: 0,
        unresolved_refs: 0,
        decode_failures: 0,
        frames_dropped: 0,
        packets_out: 0,
        pre_snapshot_bytes: 0,
        pre_snapshot_dirs: 0,
    }
}

impl Default for Report {
    fn default() -> (r: Self)
        ensures
            r == empty_report(),
    {
        Report {
            packets_in: 0,
            conns: 0,
            conns_seeded: 0,
            conns_misaligned: 0,
            header_blocks: 0,
            blocks_exact: 0,
            blocks_partial: 0,
            unresolved_refs: 0,
            decode_failures: 0,
            frames_dropped: 0,
            packets_out: 0,
            pre_snapshot_bytes: 0,
            pre_snapshot_dirs: 0,
        }
    }
}

} // verus!
