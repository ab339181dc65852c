//! Recent packets, kept so that a capture can start slightly "in the past".
use std::collections::VecDeque;
use vstd::prelude::*;

use crate::bytes::copy_bytes;

verus! {

/// Recent packets with their timestamps, oldest first.
///
/// When a capture begins, a direction may be holding a partially received frame
/// whose earlier bytes are already consumed. Those bytes have to be in the
/// capture or the normalizer cannot frame from `next_frame_seq`. Replaying the
/// ring guarantees that the capture starts at or before every direction's
/// snapshot point.
#[derive(Debug)]
pub struct Ring {
    pub q: VecDeque<(u64, Vec<u8>)>,
    pub bytes: usize,
    pub limit: usize,
    pub max_age_us: u64,
}

/// The same as a mathematical value.
#[verifier::ext_equal]
pub struct RingView {
    pub q: Seq<(u64, Seq<u8>)>,
    pub limit: usize,
    pub max_age_us: u64,
}

impl View for Ring {
    type V = RingView;

    open spec fn view(&self) -> RingView {
        RingView {
            q: Seq::new(self.q@.len(), |i: int| (self.q@[i].0, self.q@[i].1@)),
            limit: self.limit,
            max_age_us: self.max_age_us,
        }
    }
}

/// The bytes that the packets hold.
pub open spec fn held(q: Seq<(u64, Seq<u8>)>) -> nat
    decreases q.len(),
{
    if q.len() == 0 {
        0
    } else {
        held(q.drop_last()) + q.last().1.len()
    }
}

/// What is left when the oldest packets leave until none of them is from before
/// `cutoff`.
pub open spec fn since(q: Seq<(u64, Seq<u8>)>, cutoff: u64) -> Seq<(u64, Seq<u8>)>
    decreases q.len(),
{
    if q.len() > 0 && q[0].0 < cutoff {
        since(q.skip(1), cutoff)
    } else {
        q
    }
}

/// What is left when the oldest packets leave until the rest is within `limit`
/// bytes.
pub open spec fn within(q: Seq<(u64, Seq<u8>)>, limit: usize) -> Seq<(u64, Seq<u8>)>
    decreases q.len(),
{
    if q.len() > 0 && held(q) > limit {
        within(q.skip(1), limit)
    } else {
        q
    }
}

/// The oldest time that is still of interest at `ts`.
pub open spec fn cutoff_at(ts_us: u64, max_age_us: u64) -> u64 {
    if ts_us >= max_age_us {
        (ts_us - max_age_us) as u64
    } else {
        0
    }
}

/// The ring once a packet is put in. It is bounded by age as well as size: the
/// backfill exists only to complete partially received frames, which is a matter
/// of seconds. Keeping more drags long-dead connections into the capture that
/// the snapshot knows nothing about, and they can only decode partially.
pub open spec fn put(r: RingView, ts_us: u64, data: Seq<u8>) -> RingView {
    RingView {
        q: within(since(r.q.push((ts_us, data)), cutoff_at(ts_us, r.max_age_us)), r.limit),
        ..r
    }
}

/// The time of the oldest packet.
pub open spec fn oldest(r: RingView) -> Option<u64> {
    if r.q.len() == 0 {
        None
    } else {
        Some(r.q[0].0)
    }
}

proof fn lemma_held_front(q: Seq<(u64, Seq<u8>)>)
    requires
        q.len() > 0,
    ensures
        held(q) == q[0].1.len() + held(q.skip(1)),
    decreases q.len(),
{
    if q.len() == 1 {
        assert(q.drop_last() =~= Seq::<(u64, Seq<u8>)>::empty());
        assert(q.skip(1) =~= Seq::<(u64, Seq<u8>)>::empty());
    } else {
        lemma_held_front(q.drop_last());
        assert(q.drop_last().skip(1) =~= q.skip(1).drop_last());
        assert(q.skip(1).last() == q.last());
    }
}

impl Ring {
    /// The byte count is that of the packets, and within the limit.
    pub open spec fn wf(&self) -> bool {
        self.bytes == held(self@.q) && self.bytes <= self.limit
    }

    /// An empty ring. The age has to fit in microseconds.
    pub fn new(limit: usize, max_age_secs: u64) -> (r: Self)
        requires
            max_age_secs * 1_000_000 <= u64::MAX,
        ensures
            r.wf(),
            r@ == (RingView {
                q: Seq::empty(),
                limit,
                max_age_us: (max_age_secs * 1_000_000) as u64,
            }),
    {
        let r = Ring {
            q: VecDeque::new(),
            bytes: 0,
            limit,
            max_age_us: max_age_secs * 1_000_000,
        };
        assert(r@.q =~= Seq::<(u64, Seq<u8>)>::empty());
        r
    }

    /// Puts a packet in.
    pub fn push(&mut self, ts_us: u64, data: &[u8])
        requires
            old(self).wf(),
        ensures
            final(self).wf(),
            final(self)@ == put(old(self)@, ts_us, data@),
    {
        let ghost start = self@;
        let limit: usize = self.limit;
        let cutoff: u64 = ts_us.saturating_sub(self.max_age_us);
        let mut total: u128 = self.bytes as u128 + data.len() as u128;
        self.q.push_back((ts_us, copy_bytes(data)));
        let ghost all = start.q.push((ts_us, data@));
        proof {
            assert(self@.q =~= all);
            assert(all.drop_last() =~= start.q);
        }
        while self.q.len() > 0 && self.q[0].0 < cutoff
            invariant
                self.limit == start.limit,
                self.max_age_us == start.max_age_us,
                total == held(self@.q),
                since(all, cutoff) == since(self@.q, cutoff),
            decreases self@.q.len(),
        {
            let ghost before = self@.q;
            assert(before[0] == (self.q@[0].0, self.q@[0].1@));
            total = self.drop_oldest(total);
        }
        assert(self@.q == since(all, cutoff)) by {
            if self@.q.len() > 0 {
                assert(self@.q[0].0 == self.q@[0].0);
            }
        }
        let ghost young = self@.q;
        while total > limit as u128 && self.q.len() > 0
            invariant
                limit == start.limit,
                self.limit == start.limit,
                self.max_age_us == start.max_age_us,
                total == held(self@.q),
                within(young, limit) == within(self@.q, limit),
            decreases self@.q.len(),
        {
            total = self.drop_oldest(total);
        }
        assert(self@.q == within(young, limit));
        self.bytes = total as usize;
    }

    /// The oldest packet leaves. Gives the bytes that are left of `total`.
    fn drop_oldest(&mut self, total: u128) -> (r: u128)
        requires
            old(self)@.q.len() > 0,
            total == held(old(self)@.q),
        ensures
            final(self)@ == (RingView { q: old(self)@.q.skip(1), ..old(self)@ }),
            final(self).bytes == old(self).bytes,
            r == held(final(self)@.q),
    {
        let ghost before = self@.q;
        proof {
            lemma_held_front(before);
            assert(before[0] == (self.q@[0].0, self.q@[0].1@));
        }
        match self.q.pop_front() {
            Some((_, d)) => {
                assert(self@.q =~= before.skip(1));
                total - d.len() as u128
            },
            None => total,
        }
    }

    /// The time of the oldest packet.
    pub fn oldest_us(&self) -> (r: Option<u64>)
        ensures
            r == oldest(self@),
    {
        if self.q.len() == 0 {
            None
        } else {
            assert(self@.q[0].0 == self.q@[0].0);
            Some(self.q[0].0)
        }
    }
}

// ---------------------------------------------------------------------------
// Laws
// ---------------------------------------------------------------------------

/// Whether the packets are in the order of their times.
pub open spec fn in_order(q: Seq<(u64, Seq<u8>)>) -> bool {
    forall|i: int, j: int| 0 <= i < j < q.len() ==> (#[trigger] q[i]).0 <= (#[trigger] q[j]).0
}

/// How many packets have to leave, and why the last of them has to.
proof fn lemma_since_is_suffix(q: Seq<(u64, Seq<u8>)>, cutoff: u64) -> (k: int)
    ensures
        0 <= k <= q.len(),
        since(q, cutoff) == q.skip(k),
        forall|i: int| 0 <= i < k ==> (#[trigger] q[i]).0 < cutoff,
        k < q.len() ==> q[k].0 >= cutoff,
    decreases q.len(),
{
    if q.len() > 0 && q[0].0 < cutoff {
        let k = lemma_since_is_suffix(q.skip(1), cutoff);
        assert(q.skip(1).skip(k) =~= q.skip(k + 1));
        assert forall|i: int| 0 <= i < k + 1 implies (#[trigger] q[i]).0 < cutoff by {
            if i > 0 {
                assert(q.skip(1)[i - 1] == q[i]);
            }
        }
        if k + 1 < q.len() {
            assert(q.skip(1)[k] == q[k + 1]);
        }
        k + 1
    } else {
        assert(q.skip(0) =~= q);
        0
    }
}

proof fn lemma_within_is_suffix(q: Seq<(u64, Seq<u8>)>, limit: usize) -> (k: int)
    ensures
        0 <= k <= q.len(),
        within(q, limit) == q.skip(k),
        held(within(q, limit)) <= limit,
        k > 0 ==> held(q.skip(k - 1)) > limit,
    decreases q.len(),
{
    if q.len() > 0 && held(q) > limit {
        let k = lemma_within_is_suffix(q.skip(1), limit);
        assert(q.skip(1).skip(k) =~= q.skip(k + 1));
        if k > 0 {
            assert(q.skip(1).skip(k - 1) =~= q.skip(k));
        } else {
            assert(q.skip(0) =~= q);
        }
        k + 1
    } else {
        assert(q.skip(0) =~= q);
        0
    }
}

/// The ring is bounded by age as well as by size. As long as time does not run
/// backwards, no packet in it is older than the age limit, and it never holds
/// more bytes than it may.
pub proof fn law_ring_is_bounded(r: RingView, ts_us: u64, data: Seq<u8>)
    requires
        in_order(r.q.push((ts_us, data))),
    ensures
        held(put(r, ts_us, data).q) <= r.limit,
        in_order(put(r, ts_us, data).q),
        forall|i: int|
            0 <= i < put(r, ts_us, data).q.len() ==> (#[trigger] put(r, ts_us, data).q[i]).0
                >= cutoff_at(ts_us, r.max_age_us),
{
    let all = r.q.push((ts_us, data));
    let cutoff = cutoff_at(ts_us, r.max_age_us);
    let k = lemma_since_is_suffix(all, cutoff);
    let young = since(all, cutoff);
    let m = lemma_within_is_suffix(young, r.limit);
    let q = put(r, ts_us, data).q;
    assert forall|i: int| 0 <= i < q.len() implies {
        &&& (#[trigger] q[i]) == all[k + m + i]
        &&& q[i].0 >= cutoff
    } by {
        assert(q[i] == young[m + i]);
        assert(young[m + i] == all[k + (m + i)]);
        assert(all[k].0 >= cutoff);
        if m + i > 0 {
            assert(all[k].0 <= all[k + m + i].0);
        }
    }
    assert forall|i: int, j: int| 0 <= i < j < q.len() implies (#[trigger] q[i]).0 <= (
    #[trigger] q[j]).0 by {
        assert(q[i] == all[k + m + i]);
        assert(q[j] == all[k + m + j]);
    }
}

/// The ring forgets from the oldest packet on and nothing else: what it holds
/// after a packet was put in is an unbroken run up to that packet, and no packet
/// left that was young enough and for which there was room.
pub proof fn law_ring_keeps_the_newest(r: RingView, ts_us: u64, data: Seq<u8>)
    ensures
        exists|k: int|
            {
                &&& 0 <= k <= r.q.len() + 1
                &&& put(r, ts_us, data).q == #[trigger] r.q.push((ts_us, data)).skip(k)
                &&& k > 0 ==> r.q.push((ts_us, data))[k - 1].0 < cutoff_at(ts_us, r.max_age_us)
                    || held(r.q.push((ts_us, data)).skip(k - 1)) > r.limit
            },
{
    let all = r.q.push((ts_us, data));
    let cutoff = cutoff_at(ts_us, r.max_age_us);
    let k = lemma_since_is_suffix(all, cutoff);
    let young = since(all, cutoff);
    let m = lemma_within_is_suffix(young, r.limit);
    assert(young.skip(m) =~= all.skip(k + m));
    if m > 0 {
        assert(young.skip(m - 1) =~= all.skip(k + m - 1));
    }
}

/// The ring covers what is younger than its oldest packet: of all packets that
/// were ever put in, in the order of their times, it still holds every one whose
/// time is after that of the oldest it holds. A direction whose pending bytes
/// began to arrive after that time therefore has all of them in a capture that
/// starts with the ring.
pub proof fn law_ring_covers_what_is_younger(
    history: Seq<(u64, Seq<u8>)>,
    r: RingView,
    k: int,
    j: int,
)
    requires
        in_order(history),
        0 <= k <= history.len(),
        r.q == history.skip(k),
        oldest(r) is Some,
        0 <= j < history.len(),
        history[j].0 > oldest(r)->Some_0,
    ensures
        r.q.contains(history[j]),
{
    assert(r.q[0] == history[k]);
    assert(j > k) by {
        if j < k {
            assert(history[j].0 <= history[k].0);
        }
    }
    assert(r.q[j - k] == history[j]);
}

} // verus!
