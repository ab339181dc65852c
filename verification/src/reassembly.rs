//! Single-direction TCP reassembly.
//!
//! We do this ourselves rather than lean on a library for one reason: the
//! snapshot format is keyed on **absolute TCP sequence numbers**. A dynamic
//! table is only meaningful at an exact byte position in the stream, so the
//! keeper has to be able to say "this table is the state as of seq N" and the
//! normalizer has to be able to seek to exactly that byte. Most reassembly APIs
//! hand you bytes and hide the sequence numbers.
//!
//! Stream offsets are tracked incrementally, so they stay correct across
//! sequence number wrap. `seq_at()` converts back with wrapping arithmetic.
//! Offsets and counters are 64-bit and wrap.
use vstd::prelude::*;

use crate::bytes::{
    add32, add64, copy_bytes, lemma_add64_twice, off_plus, push_all, seq_distance, seq_plus, skip,
};

pub mod laws;
pub mod pieces;
pub mod supply;

verus! {

/// Bytes of out-of-order data we will hold before declaring a gap.
pub const DEFAULT_OOO_LIMIT: usize = 1_048_576;

/// How long we wait for a hole to be filled before declaring a gap.
pub const DEFAULT_OOO_TIMEOUT_US: u64 = 2_000_000;

/// Consumed prefix we tolerate before compacting the buffer.
const COMPACT_THRESHOLD: usize = 65_536;

/// The state of one direction as a mathematical value.
#[verifier::ext_equal]
pub struct ReassemblerView {
    /// Sequence number of stream offset 0.
    pub base_seq: u32,
    /// Next absolute sequence number we expect in order.
    pub next_seq: u32,
    /// Stream offset of `next_seq`, i.e. total bytes accounted for including
    /// bytes skipped over a gap.
    pub delivered_off: u64,
    /// Unconsumed, in-order bytes.
    pub avail: Seq<u8>,
    /// Stream offset of the first unconsumed byte.
    pub buf_off: u64,
    /// Segments from beyond a hole, in order of arrival.
    pub ooo: Seq<(u32, Seq<u8>)>,
    /// Since when such segments are held.
    pub ooo_since_us: Option<u64>,
    pub ooo_limit: usize,
    pub ooo_timeout_us: u64,
    pub initialized: bool,
    pub saw_syn: bool,
    pub gaps: u64,
    pub bytes: u64,
}

/// The bytes that the held segments amount to.
pub open spec fn held_bytes(ooo: Seq<(u32, Seq<u8>)>) -> nat
    decreases ooo.len(),
{
    if ooo.len() == 0 {
        0
    } else {
        held_bytes(ooo.drop_last()) + ooo.last().1.len()
    }
}

/// The state of a direction of which nothing was seen yet.
pub open spec fn fresh_reassembler() -> ReassemblerView {
    ReassemblerView {
        base_seq: 0,
        next_seq: 0,
        delivered_off: 0,
        avail: Seq::empty(),
        buf_off: 0,
        ooo: Seq::empty(),
        ooo_since_us: None,
        ooo_limit: DEFAULT_OOO_LIMIT,
        ooo_timeout_us: DEFAULT_OOO_TIMEOUT_US,
        initialized: false,
        saw_syn: false,
        gaps: 0,
        bytes: 0,
    }
}

/// The state once the SYN with sequence number `seq` is known: data starts one
/// past it.
pub open spec fn syn_noted(r: ReassemblerView, seq: u32) -> ReassemblerView {
    if r.initialized {
        r
    } else {
        ReassemblerView {
            base_seq: add32(seq, 1),
            next_seq: add32(seq, 1),
            initialized: true,
            saw_syn: true,
            ..r
        }
    }
}

/// The state once at most `n` available bytes are consumed.
pub open spec fn consumed(r: ReassemblerView, n: int) -> ReassemblerView {
    let k = if n < r.avail.len() {
        n
    } else {
        r.avail.len() as int
    };
    ReassemblerView { avail: r.avail.skip(k), buf_off: add64(r.buf_off, k), ..r }
}

/// The state once `data` continues the stream.
pub open spec fn appended(r: ReassemblerView, data: Seq<u8>) -> ReassemblerView {
    ReassemblerView {
        avail: r.avail + data,
        next_seq: add32(r.next_seq, data.len() as int),
        delivered_off: add64(r.delivered_off, data.len() as int),
        bytes: add64(r.bytes, data.len() as int),
        ..r
    }
}

/// The state once a segment that starts `behind` bytes before the expected byte
/// is taken: only its genuinely new tail counts.
pub open spec fn tail_appended(
    r: ReassemblerView,
    data: Seq<u8>,
    behind: int,
) -> ReassemblerView {
    if behind < data.len() {
        appended(r, data.skip(behind))
    } else {
        r
    }
}

/// Position, from `i` on, of the first held segment that is no longer ahead of
/// the expected byte. The number of held segments where there is none.
pub open spec fn first_ready(ooo: Seq<(u32, Seq<u8>)>, next: u32, i: int) -> int
    decreases ooo.len() - i,
{
    if i < 0 || i >= ooo.len() || seq_distance(ooo[i].0, next) <= 0 {
        i
    } else {
        first_ready(ooo, next, i + 1)
    }
}

/// The state once every held segment that the stream has reached is taken.
#[verifier::opaque]
pub open spec fn drained(r: ReassemblerView) -> ReassemblerView
    decreases r.ooo.len(),
{
    let i = first_ready(r.ooo, r.next_seq, 0);
    if i < 0 || i >= r.ooo.len() {
        if r.ooo.len() == 0 {
            ReassemblerView { ooo_since_us: None, ..r }
        } else {
            r
        }
    } else {
        let (seq, data) = r.ooo[i];
        let rest = ReassemblerView { ooo: r.ooo.remove(i), ..r };
        drained(tail_appended(rest, data, -seq_distance(seq, r.next_seq)))
    }
}

/// Draining takes the first segment that the stream has reached, then the rest.
pub proof fn lemma_drained_step(r: ReassemblerView)
    ensures
        ({
            let i = first_ready(r.ooo, r.next_seq, 0);
            if 0 <= i < r.ooo.len() {
                drained(r) == drained(
                    tail_appended(
                        ReassemblerView { ooo: r.ooo.remove(i), ..r },
                        r.ooo[i].1,
                        -seq_distance(r.ooo[i].0, r.next_seq),
                    ),
                )
            } else if r.ooo.len() == 0 {
                drained(r) == (ReassemblerView { ooo_since_us: None, ..r })
            } else {
                drained(r) == r
            }
        }),
{
    reveal_with_fuel(drained, 2);
}

/// How far ahead the earliest held segment is, by wrapped distance.
pub open spec fn hole_size(ooo: Seq<(u32, Seq<u8>)>, next: u32) -> int
    decreases ooo.len(),
{
    if ooo.len() == 0 {
        0
    } else {
        let d = (ooo.last().0 - next) % 0x1_0000_0000;
        let before = hole_size(ooo.drop_last(), next);
        if ooo.len() == 1 || d < before {
            d
        } else {
            before
        }
    }
}

/// The state once a hole is given up: we jump forward to the earliest held
/// segment. Framing is broken across the hole, so anything still pending is
/// dropped. Segments that wait behind another hole have been held all along.
pub open spec fn gapped(r: ReassemblerView) -> ReassemblerView {
    let hole = hole_size(r.ooo, r.next_seq);
    drained(
        ReassemblerView {
            gaps: add64(r.gaps, 1),
            next_seq: add32(r.next_seq, hole),
            delivered_off: add64(r.delivered_off, hole),
            avail: Seq::empty(),
            buf_off: add64(r.delivered_off, hole),
            ..r
        },
    )
}

/// The state once the first byte of the stream is fixed: without a SYN, the
/// first segment starts it.
pub open spec fn anchored(r: ReassemblerView, seq: u32) -> ReassemblerView {
    if r.initialized {
        r
    } else {
        ReassemblerView { base_seq: seq, next_seq: seq, initialized: true, ..r }
    }
}

/// The state once one segment has been fed, and whether a gap was declared.
pub open spec fn pushed(r: ReassemblerView, seq: u32, data: Seq<u8>, now_us: u64) -> (
    ReassemblerView,
    bool,
) {
    if data.len() == 0 {
        (r, false)
    } else {
        let r = anchored(r, seq);
        let ahead = seq_distance(seq, r.next_seq);
        if ahead <= 0 {
            // In order, or a retransmission or overlap.
            if -ahead >= data.len() {
                (r, false)
            } else {
                (drained(tail_appended(r, data, -ahead)), false)
            }
        } else {
            // Future segment: hold it and wait for the hole to fill.
            let held = ReassemblerView {
                ooo: r.ooo.push((seq, data)),
                ooo_since_us: Some(
                    match r.ooo_since_us {
                        Some(t) => t,
                        None => now_us,
                    },
                ),
                ..r
            };
            if held_bytes(held.ooo) > r.ooo_limit {
                (gapped(held), true)
            } else {
                (held, false)
            }
        }
    }
}

/// Whether a hole has been open for longer than we wait.
pub open spec fn hole_expired(r: ReassemblerView, now_us: u64) -> bool {
    r.ooo_since_us matches Some(t) && now_us - t > r.ooo_timeout_us
}

/// What every state satisfies: the offsets of the available bytes end where the
/// stream has been delivered to, and sequence numbers follow offsets.
pub open spec fn aligned(r: ReassemblerView) -> bool {
    &&& r.delivered_off == add64(r.buf_off, r.avail.len() as int)
    &&& r.next_seq == add32(r.base_seq, r.delivered_off as int)
    &&& !r.initialized ==> r.delivered_off == 0 && r.avail.len() == 0 && r.ooo.len() == 0
}

/// One direction of a TCP connection, put back in order.
#[derive(Debug)]
pub struct Reassembler {
    base_seq: u32,
    next_seq: u32,
    delivered_off: u64,
    buf: Vec<u8>,
    /// Consumed prefix within `buf`.
    pos: usize,
    /// Stream offset of `buf[pos]`.
    buf_off: u64,
    ooo: Vec<(u32, Vec<u8>)>,
    /// Wide enough for any number of segments.
    ooo_bytes: u128,
    ooo_since_us: Option<u64>,
    ooo_limit: usize,
    ooo_timeout_us: u64,
    pub initialized: bool,
    pub saw_syn: bool,
    pub gaps: u64,
    pub bytes: u64,
}

/// The held segments as mathematical values.
pub open spec fn segments_view(s: Seq<(u32, Vec<u8>)>) -> Seq<(u32, Seq<u8>)> {
    Seq::new(s.len(), |i: int| (s[i].0, s[i].1@))
}

impl View for Reassembler {
    type V = ReassemblerView;

    closed spec fn view(&self) -> ReassemblerView {
        ReassemblerView {
            base_seq: self.base_seq,
            next_seq: self.next_seq,
            delivered_off: self.delivered_off,
            avail: self.buf@.skip(self.pos as int),
            buf_off: self.buf_off,
            ooo: segments_view(self.ooo@),
            ooo_since_us: self.ooo_since_us,
            ooo_limit: self.ooo_limit,
            ooo_timeout_us: self.ooo_timeout_us,
            initialized: self.initialized,
            saw_syn: self.saw_syn,
            gaps: self.gaps,
            bytes: self.bytes,
        }
    }
}

impl Default for Reassembler {
    fn default() -> (r: Self)
        ensures
            r.wf(),
            r@ == fresh_reassembler(),
    {
        Self::new()
    }
}

impl Reassembler {
    /// The consumed prefix lies within the buffer, the byte count is that of
    /// the held segments, and the state is aligned.
    pub closed spec fn wf(&self) -> bool {
        &&& self.pos <= self.buf@.len()
        &&& self.ooo_bytes == held_bytes(segments_view(self.ooo@))
        &&& aligned(self@)
    }

    /// In every state, stream offsets and sequence numbers go together.
    pub proof fn law_offsets_follow_sequence_numbers(&self)
        requires
            self.wf(),
        ensures
            aligned(self@),
    {
    }

    /// A direction of which nothing was seen yet.
    pub fn new() -> (r: Self)
        ensures
            r.wf(),
            r@ == fresh_reassembler(),
    {
        let r = Reassembler {
            base_seq: 0,
            next_seq: 0,
            delivered_off: 0,
            buf: Vec::new(),
            pos: 0,
            buf_off: 0,
            ooo: Vec::new(),
            ooo_bytes: 0,
            ooo_since_us: None,
            ooo_limit: DEFAULT_OOO_LIMIT,
            ooo_timeout_us: DEFAULT_OOO_TIMEOUT_US,
            initialized: false,
            saw_syn: false,
            gaps: 0,
            bytes: 0,
        };
        assert(r@ =~= fresh_reassembler());
        r
    }

    /// Record the SYN for this direction. Data starts at seq+1, and seeing it
    /// means we have the connection from its very first byte, so the HPACK
    /// table for this direction starts genuinely empty.
    pub fn note_syn(&mut self, seq: u32)
        requires
            old(self).wf(),
        ensures
            final(self).wf(),
            final(self)@ == syn_noted(old(self)@, seq),
    {
        if self.initialized {
            return;
        }
        self.base_seq = seq.wrapping_add(1);
        self.next_seq = self.base_seq;
        self.initialized = true;
        self.saw_syn = true;
    }

    /// Whether segments from beyond a hole are held.
    pub fn holds_back(&self) -> (r: bool)
        ensures
            r == (self@.ooo.len() > 0),
    {
        self.ooo.len() > 0
    }

    /// Unconsumed, in-order bytes.
    pub fn available(&self) -> (r: &[u8])
        requires
            self.wf(),
        ensures
            r@ == self@.avail,
    {
        skip(self.buf.as_slice(), self.pos)
    }

    /// Stream offset of the first unconsumed byte.
    pub fn offset(&self) -> (r: u64)
        ensures
            r == self@.buf_off,
    {
        self.buf_off
    }

    /// Absolute TCP sequence number of a stream offset.
    pub fn seq_at(&self, off: u64) -> (r: u32)
        ensures
            r == add32(self@.base_seq, off as int),
    {
        seq_plus(self.base_seq, off)
    }

    /// Absolute sequence number of the first unconsumed byte.
    pub fn next_unparsed_seq(&self) -> (r: u32)
        ensures
            r == add32(self@.base_seq, self@.buf_off as int),
    {
        self.seq_at(self.buf_off)
    }

    /// How many gaps were declared.
    pub fn gaps_declared(&self) -> (r: u64)
        ensures
            r == self@.gaps,
    {
        self.gaps
    }

    /// How many bytes were delivered in order.
    pub fn bytes_delivered(&self) -> (r: u64)
        ensures
            r == self@.bytes,
    {
        self.bytes
    }

    /// Consume `n` bytes, or all there are.
    pub fn consume(&mut self, n: usize)
        requires
            old(self).wf(),
        ensures
            final(self).wf(),
            final(self)@ == consumed(old(self)@, n as int),
    {
        let have: usize = self.buf.len() - self.pos;
        let n: usize = if n < have {
            n
        } else {
            have
        };
        self.pos = self.pos + n;
        self.buf_off = off_plus(self.buf_off, n as u64);
        assert(self@ =~= consumed(old(self)@, n as int));
        proof {
            lemma_add64_twice(old(self)@.buf_off, n as int, self@.avail.len() as int);
        }
        if self.pos >= COMPACT_THRESHOLD {
            let rest = self.buf.split_off(self.pos);
            self.buf = rest;
            self.pos = 0;
            assert(self@.avail =~= consumed(old(self)@, n as int).avail);
        }
    }

    /// Feed one TCP segment. Returns true if a gap was declared, which means
    /// the HPACK state for this direction can no longer be trusted.
    pub fn push(&mut self, seq: u32, data: &[u8], now_us: u64) -> (r: bool)
        requires
            old(self).wf(),
        ensures
            final(self).wf(),
            final(self)@ == pushed(old(self)@, seq, data@, now_us).0,
            r == pushed(old(self)@, seq, data@, now_us).1,
    {
        if data.len() == 0 {
            return false;
        }
        if !self.initialized {
            self.base_seq = seq;
            self.next_seq = seq;
            self.initialized = true;
        }
        let ghost start = self@;
        assert(start == anchored(old(self)@, seq));
        let (ahead, behind) = distance(seq, self.next_seq);
        if ahead == 0 {
            // In order, or a retransmission or overlap: keep only the
            // genuinely new tail.
            if behind as u64 >= data.len() as u64 {
                return false; // wholly old
            }
            self.append(skip(data, behind as usize));
            assert(self@ == tail_appended(start, data@, behind as int));
            self.drain_ooo();
            false
        } else {
            // Future segment: hold it and wait for the hole to fill.
            self.hold(seq, data, now_us);
            if self.ooo_bytes > self.ooo_limit as u128 {
                return self.force_gap();
            }
            false
        }
    }

    /// Keeps a segment from beyond a hole.
    fn hold(&mut self, seq: u32, data: &[u8], now_us: u64)
        requires
            old(self).wf(),
            old(self)@.initialized,
        ensures
            final(self).wf(),
            final(self)@ == (ReassemblerView {
                ooo: old(self)@.ooo.push((seq, data@)),
                ooo_since_us: Some(
                    match old(self)@.ooo_since_us {
                        Some(t) => t,
                        None => now_us,
                    },
                ),
                ..old(self)@
            }),
    {
        proof {
            assert forall|i: int| 0 <= i < segments_view(self.ooo@).len() implies (
            #[trigger] segments_view(self.ooo@)[i]).1.len() <= usize::MAX by {
                assert(self.ooo@[i].1.len() == self.ooo@[i].1@.len());
            }
            lemma_held_bytes_bound(segments_view(self.ooo@));
            assert(self.ooo@.len() == self.ooo.len());
            assert(usize::MAX * usize::MAX + usize::MAX <= u128::MAX) by (nonlinear_arith)
                requires
                    usize::MAX <= 0xffff_ffff_ffff_ffff,
            ;
            let k = self.ooo@.len() as int;
            assert(k * usize::MAX <= usize::MAX * usize::MAX) by (nonlinear_arith)
                requires
                    0 <= k <= usize::MAX,
            ;
        }
        self.ooo.push((seq, copy_bytes(data)));
        self.ooo_bytes = self.ooo_bytes + data.len() as u128;
        if self.ooo_since_us.is_none() {
            self.ooo_since_us = Some(now_us);
        }
        let ghost held = old(self)@.ooo.push((seq, data@));
        assert(segments_view(self.ooo@) =~= held);
        assert(held.drop_last() =~= old(self)@.ooo);
    }

    /// Called periodically so a hole that never fills eventually becomes a
    /// declared gap rather than silently stalling the direction.
    pub fn check_timeout(&mut self, now_us: u64) -> (r: bool)
        requires
            old(self).wf(),
        ensures
            final(self).wf(),
            r == hole_expired(old(self)@, now_us),
            final(self)@ == (if hole_expired(old(self)@, now_us) {
                gapped(old(self)@)
            } else {
                old(self)@
            }),
    {
        if let Some(since) = self.ooo_since_us {
            if now_us.saturating_sub(since) > self.ooo_timeout_us {
                return self.force_gap();
            }
        }
        false
    }

    fn append(&mut self, data: &[u8])
        requires
            old(self).wf(),
            old(self)@.initialized,
        ensures
            final(self).wf(),
            final(self)@ == appended(old(self)@, data@),
    {
        let len: u64 = data.len() as u64;
        let ghost before = self@;
        push_all(&mut self.buf, data);
        assert(self@.avail =~= before.avail + data@);
        self.next_seq = seq_plus(self.next_seq, len);
        self.delivered_off = off_plus(self.delivered_off, len);
        self.bytes = off_plus(self.bytes, len);
        proof {
            lemma_seq_follows_offset(before.base_seq, before.delivered_off, len as int);
            lemma_add64_twice(before.buf_off, before.avail.len() as int, len as int);
        }
    }

    fn drain_ooo(&mut self)
        requires
            old(self).wf(),
            old(self)@.initialized,
        ensures
            final(self).wf(),
            final(self)@ == drained(old(self)@),
    {
        let mut i: usize = self.ready_index();
        while i < self.ooo.len()
            invariant
                self.wf(),
                self@.initialized,
                drained(self@) == drained(old(self)@),
                i == first_ready(self@.ooo, self@.next_seq, 0),
                i <= self@.ooo.len(),
                i < self@.ooo.len() ==> seq_distance(self@.ooo[i as int].0, self@.next_seq) <= 0,
            decreases self@.ooo.len(),
        {
            proof {
                lemma_drained_step(self@);
            }
            self.take_held(i);
            i = self.ready_index();
        }
        proof {
            lemma_drained_step(self@);
        }
        if self.ooo.len() == 0 {
            self.ooo_since_us = None;
        }
        assert(self@ =~= drained(old(self)@));
    }

    /// Position of the first held segment that the stream has reached.
    fn ready_index(&self) -> (r: usize)
        ensures
            r == first_ready(self@.ooo, self@.next_seq, 0),
            r <= self@.ooo.len(),
            r < self@.ooo.len() ==> seq_distance(self@.ooo[r as int].0, self@.next_seq) <= 0,
    {
        let mut i: usize = 0;
        while i < self.ooo.len()
            invariant
                i <= self.ooo@.len(),
                first_ready(self@.ooo, self@.next_seq, 0) == first_ready(
                    self@.ooo,
                    self@.next_seq,
                    i as int,
                ),
            decreases self.ooo@.len() - i,
        {
            let (ahead, _behind) = distance(self.ooo[i].0, self.next_seq);
            if ahead == 0 {
                return i;
            }
            i += 1;
        }
        i
    }

    /// Takes the held segment at position `i`, which the stream has reached.
    fn take_held(&mut self, i: usize)
        requires
            old(self).wf(),
            old(self)@.initialized,
            i < old(self)@.ooo.len(),
            seq_distance(old(self)@.ooo[i as int].0, old(self)@.next_seq) <= 0,
        ensures
            final(self).wf(),
            final(self)@ == tail_appended(
                ReassemblerView { ooo: old(self)@.ooo.remove(i as int), ..old(self)@ },
                old(self)@.ooo[i as int].1,
                -seq_distance(old(self)@.ooo[i as int].0, old(self)@.next_seq),
            ),
    {
        let ghost before = self@;
        let (seq, data) = self.ooo.remove(i);
        let (_ahead, behind) = distance(seq, self.next_seq);
        proof {
            assert(before.ooo[i as int] == (seq, data@));
            lemma_held_bytes_remove(before.ooo, i as int);
            assert(segments_view(self.ooo@) =~= before.ooo.remove(i as int));
        }
        self.ooo_bytes = self.ooo_bytes - data.len() as u128;
        assert(self@ =~= (ReassemblerView { ooo: before.ooo.remove(i as int), ..before }));
        if (behind as u64) < (data.len() as u64) {
            self.append(skip(data.as_slice(), behind as usize));
        }
    }

    /// Give up on a hole: jump forward to the earliest buffered segment and
    /// mark the direction as having lost bytes.
    fn force_gap(&mut self) -> (r: bool)
        requires
            old(self).wf(),
            old(self)@.initialized || old(self)@.ooo.len() == 0,
        ensures
            final(self).wf(),
            final(self)@ == gapped(old(self)@),
            r,
    {
        self.gaps = off_plus(self.gaps, 1);
        let hole: u32 = self.hole();
        self.delivered_off = off_plus(self.delivered_off, hole as u64);
        self.next_seq = seq_plus(self.next_seq, hole as u64);
        // Framing is broken across the hole, so anything still pending is
        // unusable. Drop it and realign offsets to the new position.
        self.buf.clear();
        self.pos = 0;
        self.buf_off = self.delivered_off;
        proof {
            lemma_seq_follows_offset(old(self)@.base_seq, old(self)@.delivered_off, hole as int);
            let r = old(self)@;
            assert(self@ =~= (ReassemblerView {
                gaps: add64(r.gaps, 1),
                next_seq: add32(r.next_seq, hole as int),
                delivered_off: add64(r.delivered_off, hole as int),
                avail: Seq::empty(),
                buf_off: add64(r.delivered_off, hole as int),
                ..r
            }));
        }
        if self.initialized {
            self.drain_ooo();
        } else {
            proof {
                lemma_drained_step(self@);
            }
            self.ooo_since_us = None;
        }
        true
    }

    /// Distance to the earliest segment ahead of us.
    fn hole(&self) -> (r: u32)
        ensures
            r == hole_size(self@.ooo, self@.next_seq),
    {
        let mut best: u32 = 0;
        let mut i: usize = 0;
        let ghost all = self@.ooo;
        while i < self.ooo.len()
            invariant
                i <= self.ooo@.len(),
                all == self@.ooo,
                best == hole_size(all.take(i as int), self@.next_seq),
            decreases self.ooo@.len() - i,
        {
            let d: u32 = self.ooo[i].0.wrapping_sub(self.next_seq);
            proof {
                assert(all.take(i + 1).drop_last() =~= all.take(i as int));
                assert(all.take(i + 1).last() == all[i as int]);
            }
            if i == 0 || d < best {
                best = d;
            }
            i += 1;
        }
        assert(all.take(all.len() as int) =~= all);
        best
    }
}

/// How far `seq` is ahead of `next`, and how far behind it. At most one of the
/// two is not zero.
fn distance(seq: u32, next: u32) -> (r: (u32, u32))
    ensures
        r.0 > 0 <==> seq_distance(seq, next) > 0,
        r.0 > 0 ==> r.0 == seq_distance(seq, next),
        seq_distance(seq, next) <= 0 ==> r.1 == -seq_distance(seq, next),
{
    let d: u32 = seq.wrapping_sub(next);
    if d == 0 {
        (0, 0)
    } else if d < 0x8000_0000 {
        (d, 0)
    } else {
        (0, next.wrapping_sub(seq))
    }
}

/// Adding the same number to an offset and to its sequence number keeps them
/// together.
pub proof fn lemma_seq_follows_offset(base: u32, off: u64, n: int)
    ensures
        add32(add32(base, off as int), n) == add32(base, add64(off, n) as int),
{
    let w = 0x1_0000_0000int;
    let q = (off + n) / 0x1_0000_0000_0000_0000;
    let o = (off + n) % 0x1_0000_0000_0000_0000;
    assert(off + n == q * 0x1_0000_0000_0000_0000 + o) by (nonlinear_arith)
        requires
            q == (off + n) / 0x1_0000_0000_0000_0000,
            o == (off + n) % 0x1_0000_0000_0000_0000,
    ;
    assert(((base + off) % w + n) % w == (base + off + n) % w) by (nonlinear_arith)
        requires
            w == 0x1_0000_0000int,
    ;
    assert((base + off + n) % w == (base + o) % w) by (nonlinear_arith)
        requires
            w == 0x1_0000_0000int,
            off + n == q * 0x1_0000_0000_0000_0000 + o,
    ;
}

proof fn lemma_held_bytes_bound(s: Seq<(u32, Seq<u8>)>)
    requires
        forall|i: int| 0 <= i < s.len() ==> (#[trigger] s[i]).1.len() <= usize::MAX,
    ensures
        held_bytes(s) <= s.len() * usize::MAX,
    decreases s.len(),
{
    if s.len() > 0 {
        lemma_held_bytes_bound(s.drop_last());
        let k = s.len() as int;
        assert((k - 1) * usize::MAX + usize::MAX == k * usize::MAX) by (nonlinear_arith);
    }
}

/// Letting a held segment go takes its bytes off.
pub proof fn lemma_held_bytes_remove(s: Seq<(u32, Seq<u8>)>, i: int)
    requires
        0 <= i < s.len(),
    ensures
        held_bytes(s) == held_bytes(s.remove(i)) + s[i].1.len(),
    decreases s.len(),
{
    if i == s.len() - 1 {
        assert(s.remove(i) =~= s.drop_last());
    } else {
        lemma_held_bytes_remove(s.drop_last(), i);
        assert(s.remove(i).drop_last() =~= s.drop_last().remove(i));
        assert(s.remove(i).last() == s.last());
    }
}

} // verus!
