//! Laws of the HPACK layer.
//!
//! Written integers and strings read back as they were; a header list encoded
//! as literals means the same to every decoder; a decoder that joined
//! mid-stream never yields a wrong header; and its claim to know the table in
//! full is sound.
use vstd::prelude::*;

use crate::bytes::sub64;
use crate::hpack::primitive::{
    group_weight, int_at, int_bytes, int_tail, int_tail_bytes, prefix_max, string_at, string_bytes,
};
use crate::hpack::static_table::STATIC_LEN;
use crate::hpack::{
    block_decoded, claims_exact, entry_at, evicted, exact_state, field_size, fit, inserted,
    known_table, lemma_fit_bytes, lemma_fit_front, lemma_representation_bounds, limited, literal_at,
    literal_block, literal_bytes, partial_state, peer_capped, rechecked, representation_at, resized,
    resolved, table_bytes, DecoderView, FieldView, HpackError, DEFAULT_TABLE_SIZE,
};

verus! {

/// The numbers that five continuation bytes after an `n`-bit prefix can carry.
pub open spec fn encodable(v: int, n: u8) -> bool {
    0 <= v <= usize::MAX && v < prefix_max(n) + 34359738368
}

/// Whether a field's name and value are short enough to be length-prefixed.
pub open spec fn encodable_field(f: FieldView) -> bool {
    encodable(f.name.len() as int, 7) && encodable(f.value.len() as int, 7)
}

proof fn lemma_flags_keep_prefix(flags: u8, v: u8, m: u16)
    requires
        m == 2 || m == 4 || m == 8 || m == 16 || m == 32 || m == 64 || m == 128 || m == 256,
        flags as u16 % m == 0,
        v < m,
    ensures
        (flags | v) as u16 % m == v,
        v == 0 ==> flags | v == flags,
        flags == 0 ==> flags | v == v,
{
    assert((flags | v) as u16 % m == v) by (bit_vector)
        requires
            m == 2 || m == 4 || m == 8 || m == 16 || m == 32 || m == 64 || m == 128 || m == 256,
            flags as u16 % m == 0,
            (v as u16) < m,
    ;
    assert(v == 0 ==> flags | v == flags) by (bit_vector);
    assert(flags == 0 ==> flags | v == v) by (bit_vector);
}

proof fn lemma_tail_round_trip(v: int, acc: int, k: int, rest: Seq<u8>)
    requires
        0 <= k <= 4,
        v >= 0,
        acc >= 0,
        acc + v * group_weight(k) <= usize::MAX,
        v * group_weight(k) < 34359738368,
    ensures
        int_tail(int_tail_bytes(v) + rest, acc, k) == Ok::<(usize, int), HpackError>(
            ((acc + v * group_weight(k)) as usize, int_tail_bytes(v).len() as int),
        ),
    decreases v,
{
    let b = int_tail_bytes(v) + rest;
    let w = group_weight(k);
    if v < 128 {
        assert(b[0] == v);
        assert(b[0] % 128 == v);
    } else {
        assert(b[0] == v % 128 + 128);
        assert(b[0] % 128 == v % 128);
        assert(b.skip(1) =~= int_tail_bytes(v / 128) + rest);
        assert(k < 4) by {
            if k == 4 {
                assert(v * 268435456 >= 34359738368) by (nonlinear_arith)
                    requires
                        v >= 128,
                ;
            }
        }
        let w2 = group_weight(k + 1);
        assert(w2 == 128 * w);
        assert((v % 128) * w + (v / 128) * w2 == v * w) by (nonlinear_arith)
            requires
                w2 == 128 * w,
                v == 128 * (v / 128) + v % 128,
        ;
        assert((v % 128) * w >= 0 && (v / 128) * w2 >= 0) by (nonlinear_arith)
            requires
                v >= 0,
                w >= 0,
                w2 >= 0,
        ;
        lemma_tail_round_trip(v / 128, acc + (v % 128) * w, k + 1, rest);
    }
}

/// An integer reads back as it was written, whatever follows it, for every
/// value that the format can carry and whatever flag bits share its first byte.
pub proof fn law_int_round_trip(v: int, n: u8, flags: u8, rest: Seq<u8>)
    requires
        1 <= n <= 8,
        flags as int % (prefix_max(n) + 1) == 0,
        encodable(v, n),
    ensures
        int_at(int_bytes(v, n, flags) + rest, n) == Ok::<(usize, int), HpackError>(
            (v as usize, int_bytes(v, n, flags).len() as int),
        ),
{
    let b = int_bytes(v, n, flags) + rest;
    let m = (prefix_max(n) + 1) as u16;
    if v < prefix_max(n) {
        lemma_flags_keep_prefix(flags, v as u8, m);
    } else {
        lemma_flags_keep_prefix(flags, prefix_max(n) as u8, m);
        assert(b.skip(1) =~= int_tail_bytes(v - prefix_max(n)) + rest);
        lemma_tail_round_trip(v - prefix_max(n), prefix_max(n), 0, rest);
    }
}

/// A string reads back as it was written, whatever follows it.
pub proof fn law_string_round_trip(s: Seq<u8>, rest: Seq<u8>)
    requires
        encodable(s.len() as int, 7),
    ensures
        string_at(string_bytes(s) + rest) == Ok::<(Seq<u8>, int), HpackError>(
            (s, string_bytes(s).len() as int),
        ),
{
    let b = string_bytes(s) + rest;
    let head = int_bytes(s.len() as int, 7, 0);
    law_int_round_trip(s.len() as int, 7, 0, s + rest);
    assert(b =~= head + (s + rest));
    assert(b.subrange(head.len() as int, (head.len() + s.len()) as int) =~= s);
    if s.len() < 127 {
        lemma_flags_keep_prefix(0, s.len() as u8, 128);
    } else {
        lemma_flags_keep_prefix(0, 127, 128);
    }
    assert(b[0] < 128);
}

/// A field as it comes back from a literal: everything but the mark of an
/// unresolved name, which the wire does not carry.
pub open spec fn resolved_field(f: FieldView) -> FieldView {
    FieldView { unknown: false, ..f }
}

/// A field list as it comes back from literals.
pub open spec fn resolved_fields(fs: Seq<FieldView>) -> Seq<FieldView> {
    fs.map_values(|f: FieldView| resolved_field(f))
}

proof fn lemma_literal_round_trip(d: DecoderView, f: FieldView, rest: Seq<u8>)
    requires
        encodable_field(f),
    ensures
        representation_at(d, literal_bytes(f) + rest) == (
            d,
            Ok::<(Option<FieldView>, int), HpackError>(
                (Some(resolved_field(f)), literal_bytes(f).len() as int),
            ),
        ),
{
    reveal(representation_at);
    let b = literal_bytes(f) + rest;
    let n = string_bytes(f.name);
    let v = string_bytes(f.value);
    assert(b[0] == if f.sensitive {
        0x10u8
    } else {
        0x00u8
    });
    assert(b.skip(1) =~= n + (v + rest));
    assert(b.skip((1 + n.len()) as int) =~= v + rest);
    law_string_round_trip(f.name, v + rest);
    law_string_round_trip(f.value, rest);
    assert(literal_bytes(f).len() == 1 + n.len() + v.len());
    assert(b[0] as int % (prefix_max(4) + 1) == 0) by {
        assert(prefix_max(4) == 15);
        assert(0x10u8 as int % 16 == 0);
        assert(0x00u8 as int % 16 == 0);
    }
    assert(int_at(b, 4) == Ok::<(usize, int), HpackError>((0usize, 1int)));
    let plain = FieldView { name: f.name, value: f.value, sensitive: false, unknown: false };
    assert(literal_at(d, b, 4) == (
        d,
        Ok::<(FieldView, int), HpackError>((plain, literal_bytes(f).len() as int)),
    ));
}

proof fn lemma_literal_block_front(fs: Seq<FieldView>)
    requires
        fs.len() > 0,
    ensures
        literal_block(fs) == literal_bytes(fs[0]) + literal_block(fs.skip(1)),
    decreases fs.len(),
{
    if fs.len() == 1 {
        assert(fs.drop_last() =~= Seq::<FieldView>::empty());
        assert(fs.skip(1) =~= Seq::<FieldView>::empty());
        assert(literal_block(fs.drop_last()) =~= Seq::<u8>::empty());
        assert(literal_block(fs) =~= literal_bytes(fs[0]));
        assert(literal_bytes(fs[0]) + literal_block(fs.skip(1)) =~= literal_bytes(fs[0]));
    } else {
        lemma_literal_block_front(fs.drop_last());
        assert(fs.drop_last().skip(1) =~= fs.skip(1).drop_last());
        assert(fs.skip(1).last() == fs.last());
        assert(literal_block(fs) =~= literal_bytes(fs[0]) + literal_block(fs.skip(1)));
    }
}

/// A header list encoded as literals decodes to itself with every decoder, in
/// whatever state, and leaves that state as it was. So a capture made of such
/// blocks can be read from any point.
pub proof fn law_literal_block_is_stateless(d: DecoderView, fs: Seq<FieldView>)
    requires
        forall|i: int| 0 <= i < fs.len() ==> encodable_field(#[trigger] fs[i]),
    ensures
        block_decoded(d, literal_block(fs)) == (
            d,
            Ok::<Seq<FieldView>, HpackError>(resolved_fields(fs)),
        ),
    decreases fs.len(),
{
    reveal(block_decoded);
    if fs.len() == 0 {
        assert(resolved_fields(fs) =~= Seq::<FieldView>::empty());
    } else {
        let b = literal_block(fs);
        let head = literal_bytes(fs[0]);
        let tail = fs.skip(1);
        lemma_literal_block_front(fs);
        assert(b =~= head + literal_block(tail));
        lemma_literal_round_trip(d, fs[0], literal_block(tail));
        assert(b.skip(head.len() as int) =~= literal_block(tail));
        assert forall|i: int| 0 <= i < tail.len() implies encodable_field(#[trigger] tail[i]) by {
            assert(tail[i] == fs[i + 1]);
        }
        law_literal_block_is_stateless(d, tail);
        assert(seq![resolved_field(fs[0])] + resolved_fields(tail) =~= resolved_fields(fs));
    }
}

// ---------------------------------------------------------------------------
// The table
// ---------------------------------------------------------------------------

/// An entry that was just inserted has index 62, and every entry that stays is
/// one index further up.
pub proof fn law_insertion_shifts_indices(d: DecoderView, f: FieldView, idx: usize)
    requires
        !d.over_limit,
        field_size(f) <= d.max_size,
        idx > STATIC_LEN,
        idx < usize::MAX,
        idx - STATIC_LEN < inserted(d, f).table.len(),
    ensures
        entry_at(inserted(d, f), 62) == Some(f),
        entry_at(inserted(d, f), (idx + 1) as usize) == entry_at(d, idx),
{
    lemma_fit_front(f, d.table, d.max_size as int);
    lemma_fit_bytes(d.table, d.max_size - field_size(f));
}

/// What the table holds never exceeds its capacity once something was inserted
/// or the capacity was signalled.
pub proof fn law_table_stays_within_capacity(d: DecoderView, f: FieldView, n: usize)
    ensures
        !d.over_limit ==> table_bytes(inserted(d, f).table) <= d.max_size,
        table_bytes(resized(d, n).table) <= n,
{
    lemma_fit_bytes(seq![f] + d.table, d.max_size as int);
    lemma_fit_bytes(d.table, n as int);
    assert(table_bytes(Seq::<FieldView>::empty()) == 0);
}

proof fn lemma_table_bytes_prefix(t: Seq<FieldView>, k: int)
    requires
        0 <= k <= t.len(),
    ensures
        table_bytes(t.take(k)) <= table_bytes(t),
        k < t.len() ==> table_bytes(t.take(k)) + 32 <= table_bytes(t),
    decreases t.len(),
{
    if k == t.len() {
        assert(t.take(k) =~= t);
    } else {
        lemma_table_bytes_prefix(t.drop_last(), k);
        assert(t.drop_last().take(k) =~= t.take(k));
    }
}

/// No longer prefix of the table than the one kept would fit.
proof fn lemma_fit_is_longest(t: Seq<FieldView>, max: int, k: int)
    requires
        0 <= k <= t.len(),
        table_bytes(t.take(k)) <= max,
    ensures
        k <= fit(t, max).len(),
    decreases t.len(),
{
    if t.len() == 0 || table_bytes(t) <= max {
    } else {
        if k == t.len() {
            assert(t.take(k) =~= t);
        } else {
            assert(t.drop_last().take(k) =~= t.take(k));
            lemma_fit_is_longest(t.drop_last(), max, k);
        }
    }
}

/// Whether `s` is the newest part of `t`.
pub open spec fn newest_of(s: Seq<FieldView>, t: Seq<FieldView>) -> bool {
    s.len() <= t.len() && s == t.take(s.len() as int)
}

proof fn lemma_fit_keeps_order(s: Seq<FieldView>, t: Seq<FieldView>, m1: int, m2: int)
    requires
        newest_of(s, t),
        0 <= m1 <= m2,
    ensures
        newest_of(fit(s, m1), fit(t, m2)),
        m1 == m2 && fit(s, m1).len() < s.len() ==> fit(s, m1) == fit(t, m2),
{
    lemma_fit_bytes(s, m1);
    lemma_fit_bytes(t, m2);
    let n1 = fit(s, m1).len() as int;
    let n2 = fit(t, m2).len() as int;
    assert(t.take(n1) =~= s.take(n1));
    lemma_fit_is_longest(t, m2, n1);
    assert(fit(s, m1) =~= fit(t, m2).take(n1));
    if m1 == m2 && n1 < s.len() {
        if n2 > n1 {
            // The next prefix of `s` would have fitted too.
            lemma_table_bytes_prefix(t.take(n2), n1 + 1);
            assert(t.take(n2).take(n1 + 1) =~= s.take(n1 + 1));
            lemma_fit_is_longest(s, m1, n1 + 1);
        }
        assert(fit(s, m1) =~= fit(t, m2));
    }
}

/// A decoded field is right: it is the true one, or it is marked as unresolved.
pub open spec fn right_or_marked(seen: FieldView, truth: FieldView) -> bool {
    seen.unknown || seen == truth
}

/// Whether the second table holds, wherever both hold an entry, the one that the
/// first holds or has marked as unresolved.
pub open spec fn alike(s: Seq<FieldView>, p: Seq<FieldView>) -> bool {
    forall|i: int|
        0 <= i < s.len() && i < p.len() ==> right_or_marked(#[trigger] s[i], p[i])
}

/// Whether the second table holds at least the newest entries of the first, up to
/// the first of them that is marked.
pub open spec fn holds_known(s: Seq<FieldView>, p: Seq<FieldView>) -> bool {
    forall|k: int| 0 <= k <= s.len() && known_table(#[trigger] s.take(k)) ==> k <= p.len()
}

/// The state of a decoder that watched its connection from the first byte, with
/// no limit to the table.
pub open spec fn full_view(p: DecoderView) -> bool {
    &&& claims_exact(p)
    &&& p.capacity_observed
    &&& p.track_limit == usize::MAX
    &&& known_table(p.table)
}

/// What an observer with state `s` may truly say of a peer whose decoder
/// watched from the first byte and is in state `p`: the entries are right or
/// marked, the newest ones up to the first mark are the peer's newest, the
/// observer does not overstate the capacity, and where it claims to know the
/// table in full, it does.
pub open spec fn tracks(s: DecoderView, p: DecoderView) -> bool {
    &&& full_view(p)
    &&& table_bytes(p.table) <= p.max_size
    &&& follows(s, p)
}

/// The part of that which does not rest on the peer's table being within its
/// capacity.
pub open spec fn follows(s: DecoderView, p: DecoderView) -> bool {
    &&& alike(s.table, p.table)
    &&& holds_known(s.table, p.table)
    &&& s.max_size <= p.max_size
    &&& s.capacity_observed ==> s.max_size == p.max_size
    &&& s.over_limit ==> s.table.len() == 0
    &&& claims_exact(s) ==> s.table == p.table && s.max_size == p.max_size
}

/// An observer that joins mid-stream tracks the peer, whatever the peer's table
/// holds by then, if the capacity was never negotiated below the default.
pub proof fn law_partial_observer_starts_tracking(p: DecoderView)
    requires
        full_view(p),
        table_bytes(p.table) <= p.max_size,
        p.max_size >= DEFAULT_TABLE_SIZE,
    ensures
        tracks(partial_state(), p),
{
}

/// An observer that saw the first byte knows the peer's table in full.
pub proof fn law_exact_observer_starts_tracking()
    ensures
        tracks(exact_state(), exact_state()),
        claims_exact(exact_state()),
{
    assert(table_bytes(exact_state().table) == 0);
}

proof fn lemma_known_is_newest(s: Seq<FieldView>, p: Seq<FieldView>, k: int)
    requires
        alike(s, p),
        holds_known(s, p),
        0 <= k <= s.len(),
        known_table(s.take(k)),
    ensures
        newest_of(s.take(k), p),
{
    assert forall|i: int| 0 <= i < k implies #[trigger] s.take(k)[i] == p.take(k)[i] by {
        assert(!s.take(k)[i].unknown);
        assert(right_or_marked(s[i], p[i]));
    }
    assert(s.take(k) =~= p.take(k));
}

proof fn lemma_all_known_is_newest(s: Seq<FieldView>, p: Seq<FieldView>)
    requires
        alike(s, p),
        holds_known(s, p),
        known_table(s),
    ensures
        newest_of(s, p),
{
    assert(s.take(s.len() as int) =~= s);
    lemma_known_is_newest(s, p, s.len() as int);
}

proof fn lemma_rechecked_tracks(s: DecoderView, p: DecoderView)
    requires
        tracks(s, p),
    ensures
        tracks(rechecked(s), p),
{
    if s.capacity_observed && !s.over_limit && table_bytes(s.table) + 32 > s.max_size
        && known_table(s.table) {
        lemma_all_known_is_newest(s.table, p.table);
        if s.table.len() < p.table.len() {
            lemma_table_bytes_prefix(p.table, s.table.len() as int);
        }
        assert(p.table.take(p.table.len() as int) =~= p.table);
    }
}

proof fn lemma_rechecked_exact(p: DecoderView)
    requires
        p.exact,
    ensures
        rechecked(p) == p,
{
}

proof fn lemma_fit_known(t: Seq<FieldView>, max: int)
    requires
        known_table(t),
        max >= 0,
    ensures
        known_table(fit(t, max)),
{
    lemma_fit_bytes(t, max);
    assert forall|i: int| 0 <= i < fit(t, max).len() implies !(#[trigger] fit(
        t,
        max,
    )[i]).unknown by {
        assert(fit(t, max)[i] == t[i]);
    }
}

proof fn lemma_fit_alike(s: Seq<FieldView>, p: Seq<FieldView>, m1: int, m2: int)
    requires
        0 <= m1,
        0 <= m2,
        alike(s, p),
    ensures
        alike(fit(s, m1), fit(p, m2)),
{
    lemma_fit_bytes(s, m1);
    lemma_fit_bytes(p, m2);
    assert forall|i: int| 0 <= i < fit(s, m1).len() && i < fit(p, m2).len() implies right_or_marked(
        #[trigger] fit(s, m1)[i],
        fit(p, m2)[i],
    ) by {
        assert(fit(s, m1)[i] == s[i]);
        assert(fit(p, m2)[i] == p[i]);
    }
}

proof fn lemma_fit_holds(s: Seq<FieldView>, p: Seq<FieldView>, m1: int, m2: int)
    requires
        0 <= m1 <= m2,
        alike(s, p),
        holds_known(s, p),
    ensures
        holds_known(fit(s, m1), fit(p, m2)),
{
    lemma_fit_bytes(s, m1);
    let a = fit(s, m1);
    assert forall|k: int| 0 <= k <= a.len() && known_table(#[trigger] a.take(k)) implies k <= fit(
        p,
        m2,
    ).len() by {
        assert(a.take(k) =~= s.take(k));
        lemma_known_is_newest(s, p, k);
        lemma_table_bytes_prefix(a, k);
        lemma_fit_is_longest(p, m2, k);
    }
}

proof fn lemma_evicted_tracks(s: DecoderView, p: DecoderView)
    requires
        follows(s, p),
        full_view(p),
    ensures
        tracks(evicted(s), evicted(p)),
{
    lemma_fit_bytes(p.table, p.max_size as int);
    lemma_fit_bytes(s.table, s.max_size as int);
    lemma_fit_alike(s.table, p.table, s.max_size as int, p.max_size as int);
    lemma_fit_holds(s.table, p.table, s.max_size as int, p.max_size as int);
    lemma_fit_known(p.table, p.max_size as int);
    if s.exact && !s.over_limit {
        assert(evicted(s).table == evicted(p).table);
    } else if claims_exact(evicted(s)) {
        lemma_all_known_is_newest(s.table, p.table);
        lemma_fit_keeps_order(s.table, p.table, s.max_size as int, p.max_size as int);
    }
}

proof fn lemma_front_alike(s: Seq<FieldView>, p: Seq<FieldView>, f: FieldView, g: FieldView)
    requires
        alike(s, p),
        right_or_marked(f, g),
    ensures
        alike(seq![f] + s, seq![g] + p),
        holds_known(s, p) ==> holds_known(seq![f] + s, seq![g] + p),
        known_table(p) && !g.unknown ==> known_table(seq![g] + p),
{
    let s1 = seq![f] + s;
    let p1 = seq![g] + p;
    assert forall|i: int| 0 <= i < s1.len() && i < p1.len() implies right_or_marked(
        #[trigger] s1[i],
        p1[i],
    ) by {
        if i > 0 {
            assert(s1[i] == s[i - 1]);
            assert(p1[i] == p[i - 1]);
        }
    }
    if holds_known(s, p) {
        assert forall|k: int| 0 <= k <= s1.len() && known_table(#[trigger] s1.take(k)) implies k
            <= p1.len() by {
            if k > 0 {
                let r = s.take(k - 1);
                assert forall|i: int| 0 <= i < r.len() implies !(#[trigger] r[i]).unknown by {
                    assert(s1.take(k)[i + 1] == r[i]);
                }
                assert(known_table(s.take(k - 1)));
            }
        }
    }
    if known_table(p) && !g.unknown {
        assert forall|i: int| 0 <= i < p1.len() implies !(#[trigger] p1[i]).unknown by {
            if i > 0 {
                assert(p1[i] == p[i - 1]);
            }
        }
    }
}

proof fn lemma_inserted_tracks(s: DecoderView, p: DecoderView, f: FieldView, g: FieldView)
    requires
        tracks(s, p),
        right_or_marked(f, g),
        !g.unknown,
        claims_exact(s) ==> f == g,
    ensures
        tracks(inserted(s, f), inserted(p, g)),
{
    let e = Seq::<FieldView>::empty();
    assert(table_bytes(e) == 0);
    let s1 = DecoderView { table: seq![f] + s.table, ..s };
    let p1 = DecoderView { table: seq![g] + p.table, ..p };
    lemma_front_alike(s.table, p.table, f, g);
    if field_size(g) > p.max_size {
        assert(inserted(p, g).table == e);
        if !s.over_limit && field_size(f) <= s.max_size {
            // Only a placeholder can be smaller than what it stands for.
            assert(f.unknown);
            lemma_fit_front(f, s.table, s.max_size as int);
            let a = inserted(s, f).table;
            assert(a[0] == f);
            assert(!known_table(s1.table)) by {
                assert(s1.table[0].unknown);
            }
            assert(!known_table(a));
            assert forall|k: int| 0 <= k <= a.len() && known_table(#[trigger] a.take(k)) implies k
                <= 0 by {
                if k > 0 {
                    assert(a.take(k)[0].unknown);
                }
            }
        }
    } else {
        lemma_fit_bytes(p1.table, p.max_size as int);
        lemma_fit_known(p1.table, p.max_size as int);
        lemma_rechecked_exact(evicted(p1));
        if s.over_limit {
        } else if field_size(f) > s.max_size {
        } else {
            if claims_exact(s) {
                assert(s1.table == p1.table);
            }
            lemma_evicted_tracks(s1, p1);
            lemma_rechecked_tracks(evicted(s1), evicted(p1));
        }
    }
}

proof fn lemma_resized_tracks(s: DecoderView, p: DecoderView, n: usize)
    requires
        tracks(s, p),
    ensures
        tracks(resized(s, n), resized(p, n)),
{
    let s1 = DecoderView { capacity_observed: true, max_size: n, ..s };
    let p1 = DecoderView { capacity_observed: true, max_size: n, ..p };
    lemma_evicted_tracks(s1, p1);
    let s2 = evicted(s1);
    let p2 = evicted(p1);
    assert(limited(p2) == p2);
    lemma_rechecked_exact(p2);
    assert(tracks(limited(s2), p2));
    lemma_rechecked_tracks(limited(s2), p2);
}

/// The peer's capacity is advertised as `n`. Where the encoder lowers its table
/// to it, or already runs at the capacity the observer assumes, the observer
/// goes on tracking it.
pub proof fn law_settings_keep_tracking(s: DecoderView, p: DecoderView, n: usize)
    requires
        tracks(s, p),
        n >= s.max_size ==> p.max_size == s.max_size,
    ensures
        tracks(peer_capped(s, n), if n < s.max_size {
            resized(p, n)
        } else {
            p
        }),
{
    if n < s.max_size {
        lemma_resized_tracks(s, p, n);
    }
}

/// Whether the observer's table holds, at every index that both hold, the peer's
/// entry or one that is marked as unresolved.
pub open spec fn agree(s: DecoderView, p: DecoderView) -> bool {
    &&& s.over_limit ==> s.table.len() == 0
    &&& full_view(p)
    &&& alike(s.table, p.table)
}

proof fn lemma_literal_agrees(s: DecoderView, p: DecoderView, b: Seq<u8>, n: u8)
    requires
        agree(s, p),
        literal_at(p, b, n).1 is Ok,
    ensures
        literal_at(p, b, n).0 == p,
        !literal_at(p, b, n).1->Ok_0.0.unknown,
        literal_at(s, b, n).0 == (DecoderView { unresolved: literal_at(s, b, n).0.unresolved, ..s }),
        match literal_at(s, b, n).1 {
            Ok((f, used)) => {
                &&& used == literal_at(p, b, n).1->Ok_0.1
                &&& right_or_marked(f, literal_at(p, b, n).1->Ok_0.0)
                &&& literal_at(p, b, n).1->Ok_0.0.sensitive == f.sensitive
                &&& claims_exact(s) && s.table == p.table ==> f == literal_at(p, b, n).1->Ok_0.0
            },
            Err(e) => claims_exact(s) && s.table != p.table && e is BadIndex,
        },
{
    if let Ok((idx, used)) = int_at(b, n) {
        if idx == 0 {
        } else {
            assert(resolved(p, idx).1 is Ok);
            if idx > STATIC_LEN {
                let i = idx - STATIC_LEN - 1;
                assert(i < p.table.len());
                assert(!p.table[i].unknown);
                if i < s.table.len() {
                    assert(right_or_marked(s.table[i], p.table[i]));
                }
            }
        }
    }
}

proof fn lemma_inserted_agrees(s: DecoderView, p: DecoderView, f: FieldView, g: FieldView)
    requires
        agree(s, p),
        right_or_marked(f, g),
        !g.unknown,
    ensures
        agree(inserted(s, f), inserted(p, g)),
{
    lemma_front_alike(s.table, p.table, f, g);
    let s1 = seq![f] + s.table;
    let p1 = seq![g] + p.table;
    lemma_fit_alike(s1, p1, s.max_size as int, p.max_size as int);
    lemma_fit_known(p1, p.max_size as int);
}

proof fn lemma_resized_agrees(s: DecoderView, p: DecoderView, n: usize)
    requires
        agree(s, p),
    ensures
        agree(resized(s, n), resized(p, n)),
{
    lemma_fit_alike(s.table, p.table, n as int, n as int);
    lemma_fit_known(p.table, n as int);
    lemma_fit_bytes(s.table, n as int);
}

proof fn lemma_representation_agrees(s: DecoderView, p: DecoderView, b: Seq<u8>)
    requires
        agree(s, p),
        b.len() > 0,
        representation_at(p, b).1 is Ok,
    ensures
        match representation_at(s, b).1 {
            Ok((f, used)) => {
                &&& used == representation_at(p, b).1->Ok_0.1
                &&& match (f, representation_at(p, b).1->Ok_0.0) {
                    (Some(seen), Some(truth)) => right_or_marked(seen, truth),
                    (None, None) => true,
                    _ => false,
                }
                &&& agree(representation_at(s, b).0, representation_at(p, b).0)
                &&& tracks(s, p) ==> tracks(representation_at(s, b).0, representation_at(p, b).0)
            },
            Err(e) => claims_exact(s) && !tracks(s, p) && e is BadIndex,
        },
{
    reveal(representation_at);
    if b[0] >= 0x80 {
        if let Ok((idx, used)) = int_at(b, 7) {
            if idx > STATIC_LEN {
                let i = idx - STATIC_LEN - 1;
                assert(i < p.table.len());
                if i < s.table.len() {
                    assert(right_or_marked(s.table[i], p.table[i]));
                }
            }
        }
    } else if b[0] >= 0x40 {
        lemma_literal_agrees(s, p, b, 6);
        if let Ok((f, _)) = literal_at(s, b, 6).1 {
            let s1 = literal_at(s, b, 6).0;
            let g = literal_at(p, b, 6).1->Ok_0.0;
            lemma_inserted_agrees(s1, p, f, g);
            if tracks(s, p) {
                assert(tracks(s1, p));
                lemma_inserted_tracks(s1, p, f, g);
            }
        }
    } else if b[0] >= 0x20 {
        if let Ok((n, _)) = int_at(b, 5) {
            lemma_resized_agrees(s, p, n);
            if tracks(s, p) {
                lemma_resized_tracks(s, p, n);
            }
        }
    } else {
        lemma_literal_agrees(s, p, b, 4);
    }
}

/// Never a wrong header: where the tables agree on the indices both hold, a
/// block that the peer decodes either fails with an index out of range, visibly,
/// or yields the peer's header list, in which every field that differs is marked
/// as unresolved. The tables then go on agreeing. This holds whatever capacity
/// the observer assumes.
pub proof fn law_observer_is_never_wrong(s: DecoderView, p: DecoderView, b: Seq<u8>)
    requires
        agree(s, p),
        block_decoded(p, b).1 is Ok,
    ensures
        match block_decoded(s, b).1 {
            Ok(fs) => {
                let truth = block_decoded(p, b).1->Ok_0;
                &&& fs.len() == truth.len()
                &&& forall|i: int|
                    0 <= i < fs.len() ==> right_or_marked(#[trigger] fs[i], truth[i])
                &&& agree(block_decoded(s, b).0, block_decoded(p, b).0)
            },
            Err(e) => e is BadIndex,
        },
    decreases b.len(),
{
    reveal(block_decoded);
    if b.len() > 0 {
        lemma_representation_bounds(s, b);
        lemma_representation_bounds(p, b);
        lemma_representation_agrees(s, p, b);
        if let Ok((_, used)) = representation_at(s, b).1 {
            law_observer_is_never_wrong(
                representation_at(s, b).0,
                representation_at(p, b).0,
                b.skip(used),
            );
        }
    }
}

/// Sound exactness: an observer that tracks the peer decodes every block that
/// the peer decodes, yields a header list in which every field is right or
/// marked, and goes on tracking. Where it claims to know the table in full, its
/// table and the peer's are one and the same.
pub proof fn law_exactness_is_sound(s: DecoderView, p: DecoderView, b: Seq<u8>)
    requires
        tracks(s, p),
        block_decoded(p, b).1 is Ok,
    ensures
        block_decoded(s, b).1 matches Ok(fs) && {
            let truth = block_decoded(p, b).1->Ok_0;
            &&& fs.len() == truth.len()
            &&& forall|i: int| 0 <= i < fs.len() ==> right_or_marked(#[trigger] fs[i], truth[i])
        },
        tracks(block_decoded(s, b).0, block_decoded(p, b).0),
        claims_exact(block_decoded(s, b).0) ==> block_decoded(s, b).0.table == block_decoded(
            p,
            b,
        ).0.table,
    decreases b.len(),
{
    reveal(block_decoded);
    if b.len() > 0 {
        lemma_representation_bounds(s, b);
        lemma_representation_bounds(p, b);
        lemma_representation_agrees(s, p, b);
        if let Ok((_, used)) = representation_at(s, b).1 {
            law_exactness_is_sound(
                representation_at(s, b).0,
                representation_at(p, b).0,
                b.skip(used),
            );
        }
    }
}

/// Exactness is claimed only where the capacity was observed: a decoder whose
/// state satisfies that goes on doing so through every block and every signal.
pub proof fn law_exactness_needs_an_observed_capacity(d: DecoderView, b: Seq<u8>, n: usize)
    requires
        d.exact ==> d.capacity_observed,
    ensures
        block_decoded(d, b).0.exact ==> block_decoded(d, b).0.capacity_observed,
        peer_capped(d, n).exact ==> peer_capped(d, n).capacity_observed,
        !d.capacity_observed && !block_decoded(d, b).0.capacity_observed ==> !block_decoded(
            d,
            b,
        ).0.exact,
    decreases b.len(),
{
    reveal(representation_at);
    reveal(block_decoded);
    if b.len() > 0 {
        lemma_representation_bounds(d, b);
        if let Ok((_, used)) = representation_at(d, b).1 {
            law_exactness_needs_an_observed_capacity(
                representation_at(d, b).0,
                b.skip(used),
                n,
            );
        }
    }
}

/// Two decoders that hold the same table. They may differ in how many references
/// they have counted as unresolved, and the second may be allowed a larger table
/// as long as the first tracks its own.
pub open spec fn same_table(d: DecoderView, e: DecoderView) -> bool {
    &&& d == (DecoderView { unresolved: d.unresolved, track_limit: d.track_limit, ..e })
    &&& d.track_limit == e.track_limit || (d.track_limit < e.track_limit && !d.over_limit)
}

/// Whether the limits of two decoders make no difference up to the point where
/// the first of them is in state `end`: they are the same, or the first has not
/// met its own.
pub open spec fn limits_agree(d: DecoderView, e: DecoderView, end: DecoderView) -> bool {
    d.track_limit == e.track_limit || !end.over_limit
}

/// A representation does not change the limit, and a table that is not tracked is
/// not taken up again.
#[verifier::rlimit(40)]
proof fn lemma_representation_limit(d: DecoderView, b: Seq<u8>)
    ensures
        representation_at(d, b).0.track_limit == d.track_limit,
        d.over_limit ==> representation_at(d, b).0.over_limit,
{
    reveal(representation_at);
}

/// The same of a whole block.
pub proof fn lemma_limit_sticks(d: DecoderView, b: Seq<u8>)
    ensures
        block_decoded(d, b).0.track_limit == d.track_limit,
        d.over_limit ==> block_decoded(d, b).0.over_limit,
    decreases b.len(),
{
    reveal(block_decoded);
    if b.len() > 0 {
        lemma_representation_bounds(d, b);
        lemma_representation_limit(d, b);
        if let Ok((_, used)) = representation_at(d, b).1 {
            lemma_limit_sticks(representation_at(d, b).0, b.skip(used));
        }
    }
}

/// The same, where moreover the two counts are `c` apart.
spec fn apart(d: DecoderView, e: DecoderView, c: u64) -> bool {
    same_table(d, e) && sub64(d.unresolved, e.unresolved) == c
}

proof fn lemma_same_resolved(d: DecoderView, e: DecoderView, idx: usize, c: u64)
    requires
        apart(d, e, c),
    ensures
        resolved(d, idx).1 == resolved(e, idx).1,
        apart(resolved(d, idx).0, resolved(e, idx).0, c),
{
    assert(entry_at(d, idx) == entry_at(e, idx));
}

proof fn lemma_same_literal(d: DecoderView, e: DecoderView, b: Seq<u8>, n: u8, c: u64)
    requires
        apart(d, e, c),
    ensures
        literal_at(d, b, n).1 == literal_at(e, b, n).1,
        apart(literal_at(d, b, n).0, literal_at(e, b, n).0, c),
{
    if let Ok((idx, _)) = int_at(b, n) {
        lemma_same_resolved(d, e, idx, c);
    }
}

proof fn lemma_same_inserted(d: DecoderView, e: DecoderView, f: FieldView, c: u64)
    requires
        apart(d, e, c),
    ensures
        apart(inserted(d, f), inserted(e, f), c),
{
}

proof fn lemma_same_resized(d: DecoderView, e: DecoderView, n: usize, c: u64)
    requires
        apart(d, e, c),
        limits_agree(d, e, resized(d, n)),
    ensures
        apart(resized(d, n), resized(e, n), c),
{
}

proof fn lemma_same_representation(d: DecoderView, e: DecoderView, b: Seq<u8>, c: u64)
    requires
        apart(d, e, c),
        limits_agree(d, e, representation_at(d, b).0),
    ensures
        representation_at(d, b).1 == representation_at(e, b).1,
        apart(representation_at(d, b).0, representation_at(e, b).0, c),
{
    reveal(representation_at);
    if b[0] >= 0x80 {
        if let Ok((idx, _)) = int_at(b, 7) {
            lemma_same_resolved(d, e, idx, c);
        }
    } else if b[0] >= 0x40 {
        lemma_same_literal(d, e, b, 6, c);
        let d1 = literal_at(d, b, 6).0;
        let e1 = literal_at(e, b, 6).0;
        if let Ok((f, _)) = literal_at(d, b, 6).1 {
            lemma_same_inserted(d1, e1, f, c);
            assert(representation_at(d, b).0 == inserted(d1, f));
            assert(representation_at(e, b).0 == inserted(e1, f));
        }
    } else if b[0] >= 0x20 {
        if let Ok((n, _)) = int_at(b, 5) {
            lemma_same_resized(d, e, n, c);
            assert(representation_at(d, b).0 == resized(d, n));
            assert(representation_at(e, b).0 == resized(e, n));
        }
    } else {
        lemma_same_literal(d, e, b, 4, c);
    }
}

/// The state of a decoder is all that its results depend on: two that hold the
/// same table decode every block alike and end with the same table. A decoder
/// restored from a snapshot therefore goes on exactly as the one it was taken
/// from, at least until that one meets a limit that the restored one does not
/// have.
pub proof fn law_same_table_same_headers(d: DecoderView, e: DecoderView, b: Seq<u8>)
    requires
        same_table(d, e),
        limits_agree(d, e, block_decoded(d, b).0),
    ensures
        block_decoded(d, b).1 == block_decoded(e, b).1,
        same_table(block_decoded(d, b).0, block_decoded(e, b).0),
        sub64(block_decoded(d, b).0.unresolved, block_decoded(e, b).0.unresolved) == sub64(
            d.unresolved,
            e.unresolved,
        ),
    decreases b.len(),
{
    reveal(block_decoded);
    if b.len() > 0 {
        lemma_representation_bounds(d, b);
        lemma_representation_limit(d, b);
        lemma_representation_limit(e, b);
        if let Ok((_, used)) = representation_at(d, b).1 {
            lemma_limit_sticks(representation_at(d, b).0, b.skip(used));
        }
        lemma_same_representation(d, e, b, sub64(d.unresolved, e.unresolved));
        if let Ok((_, used)) = representation_at(d, b).1 {
            law_same_table_same_headers(
                representation_at(d, b).0,
                representation_at(e, b).0,
                b.skip(used),
            );
        }
    }
}

/// Whether no entry carries a mark: none is sensitive, and none was inserted
/// under an unresolved name.
pub open spec fn plain_table(t: Seq<FieldView>) -> bool {
    forall|i: int| 0 <= i < t.len() ==> !(#[trigger] t[i]).sensitive && !t[i].unknown
}

/// Whether no entry is marked as sensitive: such fields are never inserted.
pub open spec fn open_table(t: Seq<FieldView>) -> bool {
    forall|i: int| 0 <= i < t.len() ==> !(#[trigger] t[i]).sensitive
}

/// What every decoder satisfies: exactness rests on an observed capacity and on
/// entries that are all known, what the table holds is within its capacity, a
/// capacity that is tracked is within the limit, and a table that is not tracked
/// is empty.
pub open spec fn sound_decoder(d: DecoderView) -> bool {
    &&& d.exact ==> d.capacity_observed
    &&& d.exact ==> known_table(d.table)
    &&& open_table(d.table)
    &&& table_bytes(d.table) <= d.max_size
    &&& !d.over_limit ==> d.max_size <= d.track_limit
    &&& d.over_limit ==> d.table.len() == 0
}

/// A sound decoder that claims to know its table in full holds no marked entry,
/// so a snapshot of it loses nothing.
pub proof fn law_exact_table_is_plain(d: DecoderView)
    requires
        sound_decoder(d),
        claims_exact(d),
    ensures
        plain_table(d.table),
{
}

proof fn lemma_fit_open(t: Seq<FieldView>, max: int)
    requires
        open_table(t),
        max >= 0,
    ensures
        open_table(fit(t, max)),
{
    lemma_fit_bytes(t, max);
    assert forall|i: int| 0 <= i < fit(t, max).len() implies !(#[trigger] fit(
        t,
        max,
    )[i]).sensitive by {
        assert(fit(t, max)[i] == t[i]);
    }
}

proof fn lemma_inserted_sound(d: DecoderView, f: FieldView)
    requires
        sound_decoder(d),
        !f.sensitive,
        claims_exact(d) ==> !f.unknown,
    ensures
        sound_decoder(inserted(d, f)),
        inserted(d, f).track_limit == d.track_limit,
{
    law_table_stays_within_capacity(d, f, 0);
    let t = seq![f] + d.table;
    assert forall|i: int| 0 <= i < t.len() implies !(#[trigger] t[i]).sensitive by {
        if i > 0 {
            assert(t[i] == d.table[i - 1]);
        }
    }
    lemma_fit_open(t, d.max_size as int);
    if known_table(d.table) && !f.unknown {
        assert forall|i: int| 0 <= i < t.len() implies !(#[trigger] t[i]).unknown by {
            if i > 0 {
                assert(t[i] == d.table[i - 1]);
            }
        }
    }
    if known_table(t) {
        lemma_fit_known(t, d.max_size as int);
    }
}

proof fn lemma_resized_sound(d: DecoderView, n: usize)
    requires
        sound_decoder(d),
    ensures
        sound_decoder(resized(d, n)),
        resized(d, n).track_limit == d.track_limit,
{
    lemma_fit_bytes(d.table, n as int);
    lemma_fit_open(d.table, n as int);
    if known_table(d.table) {
        lemma_fit_known(d.table, n as int);
    }
    assert(table_bytes(Seq::<FieldView>::empty()) == 0);
}

proof fn lemma_literal_sound(d: DecoderView, b: Seq<u8>, n: u8)
    ensures
        literal_at(d, b, n).0 == (DecoderView { unresolved: literal_at(d, b, n).0.unresolved, ..d }),
        literal_at(d, b, n).1 matches Ok((f, _)) ==> !f.sensitive && (claims_exact(d)
            && known_table(d.table) ==> !f.unknown),
{
    if let Ok((idx, _)) = int_at(b, n) {
        if idx > STATIC_LEN && idx - STATIC_LEN - 1 < d.table.len() {
            assert(known_table(d.table) ==> !d.table[idx - STATIC_LEN - 1].unknown);
        }
    }
}

proof fn lemma_representation_sound(d: DecoderView, b: Seq<u8>)
    requires
        sound_decoder(d),
    ensures
        sound_decoder(representation_at(d, b).0),
        representation_at(d, b).0.track_limit == d.track_limit,
{
    reveal(representation_at);
    lemma_literal_sound(d, b, 6);
    lemma_literal_sound(d, b, 4);
    if 0x40 <= b[0] < 0x80 {
        if let Ok((f, _)) = literal_at(d, b, 6).1 {
            lemma_inserted_sound(literal_at(d, b, 6).0, f);
        }
    } else if 0x20 <= b[0] < 0x40 {
        if let Ok((n, _)) = int_at(b, 5) {
            lemma_resized_sound(d, n);
        }
    }
}

/// Decoding a block, whether it succeeds or not, and a signalled capacity keep a
/// decoder sound and its limit unchanged.
pub proof fn law_decoders_stay_sound(d: DecoderView, b: Seq<u8>, n: usize)
    requires
        sound_decoder(d),
    ensures
        sound_decoder(block_decoded(d, b).0),
        block_decoded(d, b).0.track_limit == d.track_limit,
        sound_decoder(peer_capped(d, n)),
        peer_capped(d, n).track_limit == d.track_limit,
    decreases b.len(),
{
    reveal(block_decoded);
    lemma_resized_sound(d, n);
    if b.len() > 0 {
        lemma_representation_bounds(d, b);
        lemma_representation_sound(d, b);
        if let Ok((_, used)) = representation_at(d, b).1 {
            law_decoders_stay_sound(representation_at(d, b).0, b.skip(used), n);
        }
    }
}

/// Whether exactness rests on an observed capacity.
pub open spec fn exact_on_observed(d: DecoderView) -> bool {
    d.exact ==> d.capacity_observed
}

proof fn lemma_representation_observed(d: DecoderView, b: Seq<u8>)
    requires
        exact_on_observed(d),
    ensures
        exact_on_observed(representation_at(d, b).0),
{
    reveal(representation_at);
}

/// Whatever a decoder was restored from, neither a block nor a signalled capacity
/// makes it claim exactness on a capacity that was only assumed.
pub proof fn law_exactness_rests_on_observation(d: DecoderView, b: Seq<u8>, n: usize)
    requires
        exact_on_observed(d),
    ensures
        exact_on_observed(block_decoded(d, b).0),
        exact_on_observed(peer_capped(d, n)),
        exact_on_observed(limited(DecoderView { track_limit: n, ..d })),
    decreases b.len(),
{
    reveal(block_decoded);
    if b.len() > 0 {
        lemma_representation_bounds(d, b);
        lemma_representation_observed(d, b);
        if let Ok((_, used)) = representation_at(d, b).1 {
            law_exactness_rests_on_observation(representation_at(d, b).0, b.skip(used), n);
        }
    }
}

} // verus!
