//! A stream that arrives in pieces, in any order and any number of times over,
//! comes out whole.
use vstd::prelude::*;
use vstd::set_lib::{lemma_int_range, lemma_len_subset, lemma_len_union, set_int_range};

use crate::bytes::{add32, lemma_add32_twice, seq_distance};
use crate::reassembly::{
    drained, first_ready, fresh_reassembler, held_bytes, hole_expired, lemma_drained_step,
    lemma_held_bytes_remove, pushed, syn_noted, tail_appended, ReassemblerView, DEFAULT_OOO_LIMIT,
};

verus! {

/// The state once pieces of the stream `s`, whose first byte is the one after
/// the SYN `isn`, have been fed one by one, each as the offsets at which it
/// starts and ends; and whether a gap was declared on the way.
pub open spec fn pieces_pushed(
    r: ReassemblerView,
    isn: u32,
    s: Seq<u8>,
    pieces: Seq<(int, int)>,
    times: Seq<u64>,
) -> (ReassemblerView, bool)
    decreases pieces.len(),
{
    if pieces.len() == 0 {
        (r, false)
    } else {
        let before = pieces_pushed(r, isn, s, pieces.drop_last(), times);
        let (from, to) = pieces.last();
        let (after, gap) = pushed(
            before.0,
            add32(isn, 1 + from),
            s.subrange(from, to),
            times[pieces.len() - 1],
        );
        (after, before.1 || gap)
    }
}

/// The bytes that pieces amount to.
pub open spec fn piece_bytes(pieces: Seq<(int, int)>) -> int
    decreases pieces.len(),
{
    if pieces.len() == 0 {
        0
    } else {
        piece_bytes(pieces.drop_last()) + (pieces.last().1 - pieces.last().0)
    }
}

/// Whether each piece is one of a stream of `n` bytes.
pub open spec fn pieces_within(pieces: Seq<(int, int)>, n: int) -> bool {
    forall|k: int|
        0 <= k < pieces.len() ==> 0 <= (#[trigger] pieces[k]).0 <= pieces[k].1 <= n
}

/// Whether some piece holds the byte at offset `b`.
pub open spec fn some_piece_holds(pieces: Seq<(int, int)>, b: int) -> bool {
    exists|k: int| 0 <= k < pieces.len() && (#[trigger] pieces[k]).0 <= b < pieces[k].1
}

/// Stream offset that a sequence number stands for.
spec fn offset_of(base: u32, seq: u32) -> int {
    (seq - base) % 0x1_0000_0000
}

/// Whether a held segment is a piece of the stream.
spec fn is_piece(base: u32, s: Seq<u8>, held: (u32, Seq<u8>)) -> bool {
    let o = offset_of(base, held.0);
    &&& held.1.len() > 0
    &&& o + held.1.len() <= s.len()
    &&& held.1 == s.subrange(o, o + held.1.len())
}

/// Whether the state holds a part of the stream from its first byte on, and
/// pieces of it.
#[verifier::opaque]
spec fn partway(r: ReassemblerView, base: u32, s: Seq<u8>) -> bool {
    let t = r.avail.len();
    &&& r.initialized
    &&& r.base_seq == base
    &&& r.ooo_limit == DEFAULT_OOO_LIMIT
    &&& t <= s.len() <= DEFAULT_OOO_LIMIT
    &&& r.avail == s.take(t as int)
    &&& r.buf_off == 0
    &&& r.delivered_off == t
    &&& r.next_seq == add32(base, t as int)
    &&& r.bytes == t
    &&& r.gaps == 0
    &&& forall|i: int| 0 <= i < r.ooo.len() ==> is_piece(base, s, #[trigger] r.ooo[i])
    &&& r.ooo.len() == 0 ==> r.ooo_since_us is None
}

/// Whether all that is held lies ahead.
#[verifier::opaque]
spec fn all_ahead(r: ReassemblerView, base: u32) -> bool {
    forall|i: int|
        0 <= i < r.ooo.len() ==> offset_of(base, (#[trigger] r.ooo[i]).0) > r.avail.len()
}

/// Whether a piece is part of what is available, or held.
#[verifier::opaque]
spec fn accounted(r: ReassemblerView, base: u32, s: Seq<u8>, from: int, to: int) -> bool {
    to <= r.avail.len() || exists|i: int|
        0 <= i < r.ooo.len() && #[trigger] r.ooo[i] == (add32(base, from), s.subrange(from, to))
}

proof fn lemma_offset_back(base: u32, o: int)
    requires
        0 <= o < 0x1_0000_0000,
    ensures
        offset_of(base, add32(base, o)) == o,
{
}

proof fn lemma_distance_is_offset(base: u32, seq: u32, t: int)
    requires
        0 <= t < 0x4000_0000,
        offset_of(base, seq) < 0x4000_0000,
    ensures
        seq_distance(seq, add32(base, t)) == offset_of(base, seq) - t,
{
}

/// Taking a piece that the available bytes have reached.
proof fn lemma_piece_taken(r: ReassemblerView, base: u32, s: Seq<u8>, seq: u32, data: Seq<u8>)
    requires
        partway(ReassemblerView { ooo_since_us: None, ..r }, base, s),
        is_piece(base, s, (seq, data)),
        offset_of(base, seq) <= r.avail.len(),
    ensures
        ({
            let behind = -seq_distance(seq, r.next_seq);
            let o = offset_of(base, seq);
            let a = tail_appended(r, data, behind);
            &&& behind == r.avail.len() - o
            &&& partway(ReassemblerView { ooo_since_us: None, ..a }, base, s)
            &&& a.ooo == r.ooo
            &&& a.ooo_since_us == r.ooo_since_us
            &&& r.avail.len() <= a.avail.len()
            &&& o + data.len() <= a.avail.len()
        }),
{
    reveal(partway);
    reveal(all_ahead);
    reveal(accounted);
    let o = offset_of(base, seq);
    let t = r.avail.len() as int;
    lemma_distance_is_offset(base, seq, t);
    let behind = t - o;
    if behind < data.len() {
        assert(r.avail + data.skip(behind) =~= s.take(o + data.len()));
    }
}

/// Draining leaves only pieces that lie ahead, and loses none.
proof fn lemma_drained_partway(r: ReassemblerView, base: u32, s: Seq<u8>)
    requires
        partway(ReassemblerView { ooo_since_us: None, ..r }, base, s),
    ensures
        partway(drained(r), base, s),
        all_ahead(drained(r), base),
        held_bytes(drained(r).ooo) <= held_bytes(r.ooo),
        forall|from: int, to: int|
            0 <= from < to <= s.len() && #[trigger] accounted(r, base, s, from, to) ==> accounted(
                drained(r),
                base,
                s,
                from,
                to,
            ),
    decreases r.ooo.len(),
{
    reveal(partway);
    reveal(all_ahead);
    reveal(accounted);
    lemma_drained_step(r);
    lemma_first(r, base, s, 0);
    let i = first_ready(r.ooo, r.next_seq, 0);
    if i < r.ooo.len() {
        let (seq, data) = r.ooo[i];
        let rest = ReassemblerView { ooo: r.ooo.remove(i), ..r };
        assert forall|j: int| 0 <= j < rest.ooo.len() implies is_piece(
            base,
            s,
            #[trigger] rest.ooo[j],
        ) by {
            assert(rest.ooo[j] == r.ooo[if j < i {
                j
            } else {
                j + 1
            }]);
        }
        lemma_held_bytes_remove(r.ooo, i);
        lemma_piece_taken(rest, base, s, seq, data);
        let a = tail_appended(rest, data, -seq_distance(seq, r.next_seq));
        lemma_drained_partway(a, base, s);
        assert forall|from: int, to: int|
            0 <= from < to <= s.len() && #[trigger] accounted(r, base, s, from, to) implies accounted(
            drained(r),
            base,
            s,
            from,
            to,
        ) by {
            assert(accounted(a, base, s, from, to)) by {
                if to > r.avail.len() {
                    let k = choose|k: int|
                        0 <= k < r.ooo.len() && #[trigger] r.ooo[k] == (
                            add32(base, from),
                            s.subrange(from, to),
                        );
                    if k == i {
                        lemma_offset_back(base, from);
                        assert(to <= a.avail.len());
                    } else {
                        assert(a.ooo[if k < i {
                            k
                        } else {
                            k - 1
                        }] == r.ooo[k]);
                    }
                }
            }
        }
    } else {
        assert forall|from: int, to: int|
            0 <= from < to <= s.len() && #[trigger] accounted(r, base, s, from, to) implies accounted(
            drained(r),
            base,
            s,
            from,
            to,
        ) by {
            if to > r.avail.len() {
                let k = choose|k: int|
                    0 <= k < r.ooo.len() && #[trigger] r.ooo[k] == (
                        add32(base, from),
                        s.subrange(from, to),
                    );
                assert(drained(r).ooo[k] == r.ooo[k]);
            }
        }
    }
}

proof fn lemma_first(r: ReassemblerView, base: u32, s: Seq<u8>, i: int)
    requires
        partway(ReassemblerView { ooo_since_us: None, ..r }, base, s),
        0 <= i <= r.ooo.len(),
    ensures
        ({
            let k = first_ready(r.ooo, r.next_seq, i);
            &&& i <= k <= r.ooo.len()
            &&& k < r.ooo.len() ==> offset_of(base, r.ooo[k].0) <= r.avail.len()
            &&& forall|j: int|
                i <= j < k ==> offset_of(base, (#[trigger] r.ooo[j]).0) > r.avail.len()
        }),
    decreases r.ooo.len() - i,
{
    reveal(partway);
    reveal(all_ahead);
    reveal(accounted);
    if i < r.ooo.len() {
        assert(is_piece(base, s, r.ooo[i]));
        lemma_distance_is_offset(base, r.ooo[i].0, r.avail.len() as int);
        if seq_distance(r.ooo[i].0, r.next_seq) > 0 {
            lemma_first(r, base, s, i + 1);
        }
    }
}

/// Feeding one piece.
proof fn lemma_piece_pushed(
    r: ReassemblerView,
    base: u32,
    s: Seq<u8>,
    from: int,
    to: int,
    now_us: u64,
)
    requires
        partway(r, base, s),
        all_ahead(r, base),
        0 <= from <= to <= s.len(),
        held_bytes(r.ooo) + (to - from) <= DEFAULT_OOO_LIMIT,
    ensures
        ({
            let (a, gap) = pushed(r, add32(base, from), s.subrange(from, to), now_us);
            &&& !gap
            &&& partway(a, base, s)
            &&& all_ahead(a, base)
            &&& held_bytes(a.ooo) <= held_bytes(r.ooo) + (to - from)
            &&& from < to ==> accounted(a, base, s, from, to)
            &&& forall|f: int, e: int|
                0 <= f < e <= s.len() && #[trigger] accounted(r, base, s, f, e) ==> accounted(
                    a,
                    base,
                    s,
                    f,
                    e,
                )
        }),
{
    reveal(partway);
    reveal(all_ahead);
    reveal(accounted);
    let seq = add32(base, from);
    let data = s.subrange(from, to);
    let t = r.avail.len() as int;
    let a = pushed(r, seq, data, now_us).0;
    if from < to {
        lemma_offset_back(base, from);
        lemma_distance_is_offset(base, seq, t);
        assert(is_piece(base, s, (seq, data)));
        if from <= t {
            if to > t {
                let b = tail_appended(r, data, t - from);
                lemma_piece_taken(r, base, s, seq, data);
                lemma_drained_partway(b, base, s);
                assert(accounted(b, base, s, from, to));
                assert forall|f: int, e: int|
                    0 <= f < e <= s.len() && #[trigger] accounted(r, base, s, f, e) implies accounted(
                    a,
                    base,
                    s,
                    f,
                    e,
                ) by {
                    assert(accounted(b, base, s, f, e)) by {
                        if e > t {
                            let k = choose|k: int|
                                0 <= k < r.ooo.len() && #[trigger] r.ooo[k] == (
                                    add32(base, f),
                                    s.subrange(f, e),
                                );
                            assert(b.ooo[k] == r.ooo[k]);
                        }
                    }
                }
            } else {
                assert(a == r);
            }
        } else {
            let ooo = r.ooo.push((seq, data));
            assert(ooo.drop_last() =~= r.ooo);
            assert(held_bytes(ooo) == held_bytes(r.ooo) + data.len());
            assert(a.ooo == ooo);
            assert(a.ooo[r.ooo.len() as int] == (seq, data));
            assert forall|f: int, e: int|
                0 <= f < e <= s.len() && #[trigger] accounted(r, base, s, f, e) implies accounted(
                a,
                base,
                s,
                f,
                e,
            ) by {
                if e > t {
                    let k = choose|k: int|
                        0 <= k < r.ooo.len() && #[trigger] r.ooo[k] == (
                            add32(base, f),
                            s.subrange(f, e),
                        );
                    assert(a.ooo[k] == r.ooo[k]);
                }
            }
        }
    }
}

/// The offsets that pieces hold.
spec fn held_offsets(pieces: Seq<(int, int)>) -> Set<int>
    decreases pieces.len(),
{
    if pieces.len() == 0 {
        Set::empty()
    } else {
        held_offsets(pieces.drop_last()).union(set_int_range(pieces.last().0, pieces.last().1))
    }
}

proof fn lemma_held_offsets(pieces: Seq<(int, int)>, n: int)
    requires
        pieces_within(pieces, n),
    ensures
        held_offsets(pieces).finite(),
        held_offsets(pieces).len() <= piece_bytes(pieces),
        forall|k: int, b: int|
            0 <= k < pieces.len() && (#[trigger] pieces[k]).0 <= b < pieces[k].1
                ==> #[trigger] held_offsets(pieces).contains(b),
    decreases pieces.len(),
{
    if pieces.len() > 0 {
        let front = pieces.drop_last();
        assert forall|k: int| 0 <= k < front.len() implies 0 <= (#[trigger] front[k]).0
            <= front[k].1 <= n by {
            assert(front[k] == pieces[k]);
        }
        lemma_held_offsets(front, n);
        assert(pieces[pieces.len() - 1] == pieces.last());
        lemma_int_range(pieces.last().0, pieces.last().1);
        lemma_len_union(held_offsets(front), set_int_range(pieces.last().0, pieces.last().1));
        assert forall|k: int, b: int|
            0 <= k < pieces.len() && (#[trigger] pieces[k]).0 <= b
                < pieces[k].1 implies #[trigger] held_offsets(pieces).contains(b) by {
            if k < front.len() {
                assert(front[k] == pieces[k]);
                assert(held_offsets(front).contains(b));
            }
        }
    }
}

/// Pieces that hold every byte are no fewer bytes than the stream.
proof fn lemma_pieces_suffice(pieces: Seq<(int, int)>, n: int)
    requires
        0 <= n,
        pieces_within(pieces, n),
        forall|b: int| 0 <= b < n ==> #[trigger] some_piece_holds(pieces, b),
    ensures
        n <= piece_bytes(pieces),
{
    lemma_held_offsets(pieces, n);
    lemma_int_range(0, n);
    assert forall|b: int| #[trigger] set_int_range(0, n).contains(b) implies held_offsets(
        pieces,
    ).contains(b) by {
        assert(some_piece_holds(pieces, b));
        let k = choose|k: int| 0 <= k < pieces.len() && (#[trigger] pieces[k]).0 <= b < pieces[k].1;
        assert(pieces[k].0 <= b);
    }
    lemma_len_subset(set_int_range(0, n), held_offsets(pieces));
}

/// Whether the state has what the pieces brought.
#[verifier::opaque]
spec fn gathered(r: ReassemblerView, base: u32, s: Seq<u8>, pieces: Seq<(int, int)>) -> bool {
    &&& partway(r, base, s)
    &&& all_ahead(r, base)
    &&& held_bytes(r.ooo) <= piece_bytes(pieces)
    &&& forall|k: int|
        0 <= k < pieces.len() && (#[trigger] pieces[k]).0 < pieces[k].1 ==> accounted(
            r,
            base,
            s,
            pieces[k].0,
            pieces[k].1,
        )
}

proof fn lemma_next_piece(
    r: ReassemblerView,
    base: u32,
    s: Seq<u8>,
    pieces: Seq<(int, int)>,
    now_us: u64,
)
    requires
        pieces.len() > 0,
        gathered(r, base, s, pieces.drop_last()),
        pieces_within(pieces, s.len() as int),
        piece_bytes(pieces) <= DEFAULT_OOO_LIMIT,
    ensures
        ({
            let (from, to) = pieces.last();
            let (a, gap) = pushed(r, add32(base, from), s.subrange(from, to), now_us);
            !gap && gathered(a, base, s, pieces)
        }),
{
    reveal(gathered);
    let front = pieces.drop_last();
    let (from, to) = pieces.last();
    assert(pieces[pieces.len() - 1] == pieces.last());
    lemma_piece_pushed(r, base, s, from, to, now_us);
    let a = pushed(r, add32(base, from), s.subrange(from, to), now_us).0;
    assert forall|k: int|
        0 <= k < pieces.len() && (#[trigger] pieces[k]).0 < pieces[k].1 implies accounted(
        a,
        base,
        s,
        pieces[k].0,
        pieces[k].1,
    ) by {
        if k < front.len() {
            assert(front[k] == pieces[k]);
            assert(accounted(r, base, s, pieces[k].0, pieces[k].1));
        }
    }
}

proof fn lemma_pieces_pushed(isn: u32, s: Seq<u8>, pieces: Seq<(int, int)>, times: Seq<u64>)
    requires
        s.len() <= DEFAULT_OOO_LIMIT,
        pieces_within(pieces, s.len() as int),
        piece_bytes(pieces) <= DEFAULT_OOO_LIMIT,
    ensures
        ({
            let (r, gap) = pieces_pushed(
                syn_noted(fresh_reassembler(), isn),
                isn,
                s,
                pieces,
                times,
            );
            !gap && gathered(r, add32(isn, 1), s, pieces)
        }),
    decreases pieces.len(),
{
    let base = add32(isn, 1);
    let start = syn_noted(fresh_reassembler(), isn);
    if pieces.len() == 0 {
        reveal(gathered);
        reveal(partway);
        reveal(all_ahead);
        assert(start.avail =~= s.take(0));
    } else {
        let front = pieces.drop_last();
        assert forall|k: int| 0 <= k < front.len() implies 0 <= (#[trigger] front[k]).0
            <= front[k].1 <= s.len() by {
            assert(front[k] == pieces[k]);
        }
        lemma_pieces_pushed(isn, s, front, times);
        lemma_add32_twice(isn, 1, pieces.last().0);
        lemma_next_piece(
            pieces_pushed(start, isn, s, front, times).0,
            base,
            s,
            pieces,
            times[pieces.len() - 1],
        );
    }
}

/// A stream comes out whole however it arrives: after its SYN, pieces of it that
/// together hold every byte of it, in any order, overlapping or sent again, make
/// it available from its first byte to its last. No gap is declared, and none
/// will be, as long as no more than a megabyte was sent in all.
pub proof fn law_pieces_make_the_stream(
    isn: u32,
    s: Seq<u8>,
    pieces: Seq<(int, int)>,
    times: Seq<u64>,
)
    requires
        pieces_within(pieces, s.len() as int),
        forall|b: int| 0 <= b < s.len() ==> #[trigger] some_piece_holds(pieces, b),
        piece_bytes(pieces) <= DEFAULT_OOO_LIMIT,
    ensures
        ({
            let (r, gap) = pieces_pushed(
                syn_noted(fresh_reassembler(), isn),
                isn,
                s,
                pieces,
                times,
            );
            &&& !gap
            &&& r.avail == s
            &&& r.bytes == s.len()
            &&& r.gaps == 0
            &&& add32(r.base_seq, r.buf_off as int) == add32(isn, 1)
            &&& forall|now_us: u64| !hole_expired(r, now_us)
        }),
{
    reveal(gathered);
    reveal(partway);
    reveal(all_ahead);
    reveal(accounted);
    lemma_pieces_suffice(pieces, s.len() as int);
    lemma_pieces_pushed(isn, s, pieces, times);
    let base = add32(isn, 1);
    let r = pieces_pushed(syn_noted(fresh_reassembler(), isn), isn, s, pieces, times).0;
    let t = r.avail.len() as int;
    if t < s.len() {
        assert(some_piece_holds(pieces, t));
        let k = choose|k: int| 0 <= k < pieces.len() && (#[trigger] pieces[k]).0 <= t < pieces[k].1;
        let (from, to) = pieces[k];
        assert(accounted(r, base, s, from, to));
        let i = choose|i: int|
            0 <= i < r.ooo.len() && #[trigger] r.ooo[i] == (add32(base, from), s.subrange(from, to));
        lemma_offset_back(base, from);
        assert(offset_of(base, r.ooo[i].0) > t);
    }
    assert(s.take(t) =~= s);
    if r.ooo.len() > 0 {
        assert(is_piece(base, s, r.ooo[0]));
        assert(offset_of(base, r.ooo[0].0) > t);
    }
}

} // verus!
