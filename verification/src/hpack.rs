//! HPACK (RFC 7541) with a tolerant decoder.
//!
//! This differs from a conforming decoder in exactly one way, and that
//! difference is the reason the tool exists: when it meets an index pointing
//! at a dynamic table entry that was inserted *before* we started watching the
//! connection, it emits a placeholder instead of failing.
//!
//! The index arithmetic stays exact even then:
//!
//!   * Dynamic indices start at 62, and 62 is always the newest entry, so each
//!     insertion shifts existing entries up by one.
//!   * Eviction is from the tail, oldest first. Every pre-capture entry is
//!     older than every entry we observed, so the unknown region is always a
//!     suffix of the table and always evicts first.
//!   * Therefore an entry we watched being inserted keeps the index it would
//!     have had if the unknown region did not exist. Ordinary accounting over
//!     our own entries is correct from the first packet.
//!   * Once our own entries fill the table to within `MIN_ENTRY_SIZE` bytes,
//!     no pre-capture entry can still fit, so every one of them is provably
//!     gone. From that point the decode is complete, not partial. That is what
//!     `exact` reports.
//!
//! The module `laws` proves these statements against a decoder that watched the
//! connection from its first byte.
use std::borrow::Cow;
use std::collections::VecDeque;
use vstd::prelude::*;
use vstd::string::*;
use vstd::utf8::*;

use crate::bytes::{add64, copy_bytes, lemma_add64_twice};
use crate::text::{decimal, push_decimal};

pub mod huffman;
pub mod laws;
pub mod primitive;
pub mod static_table;
pub mod wire;

pub use primitive::{read_int, read_string, write_int, write_string};

use primitive::{int_at, lemma_int_at_bounds, lemma_string_at_bounds, string_at, string_bytes};
use static_table::{static_entry, static_text, STATIC_LEN};

verus! {

/// Per-entry overhead in the dynamic table size accounting (RFC 7541 4.1).
/// Also the size of the smallest possible entry, which is what makes the
/// `exact` proof work.
pub const MIN_ENTRY_SIZE: usize = 32;

pub const DEFAULT_TABLE_SIZE: usize = 4096;

/// One header field.
#[derive(Debug, Default, PartialEq, Eq)]
pub struct Field {
    pub name: Vec<u8>,
    pub value: Vec<u8>,
    /// Arrived as "literal never indexed" (RFC 7541 6.2.3).
    pub sensitive: bool,
    /// Name and/or value came from a pre-capture table entry we cannot resolve.
    pub unknown: bool,
}

/// A header field as a mathematical value.
#[verifier::ext_equal]
pub struct FieldView {
    pub name: Seq<u8>,
    pub value: Seq<u8>,
    pub sensitive: bool,
    pub unknown: bool,
}

impl View for Field {
    type V = FieldView;

    open spec fn view(&self) -> FieldView {
        FieldView {
            name: self.name@,
            value: self.value@,
            sensitive: self.sensitive,
            unknown: self.unknown,
        }
    }
}

/// The header fields of a list, one by one.
pub open spec fn fields_view(s: Seq<Field>) -> Seq<FieldView> {
    Seq::new(s.len(), |i: int| s[i]@)
}

/// The size an entry counts for in the dynamic table (RFC 7541 4.1).
pub open spec fn field_size(f: FieldView) -> nat {
    f.name.len() + f.value.len() + 32
}

/// The text that `String::from_utf8_lossy` makes of `b`.
pub uninterp spec fn lossy_text(b: Seq<u8>) -> Seq<char>;

/// Calls `String::from_utf8_lossy`.
///
/// Trusted: the text depends on the bytes alone, and valid UTF-8 comes back as
/// the characters it encodes. How invalid sequences are replaced is not said
/// here.
#[verifier::external_body]
fn lossy(b: &[u8]) -> (r: Cow<'_, str>)
    ensures
        r@ == lossy_text(b@),
        valid_utf8(b@) ==> r@ == decode_utf8(b@),
{
    String::from_utf8_lossy(b)
}

impl Clone for Field {
    fn clone(&self) -> (r: Self)
        ensures
            r@ == self@,
    {
        Field {
            name: copy_bytes(&self.name),
            value: copy_bytes(&self.value),
            sensitive: self.sensitive,
            unknown: self.unknown,
        }
    }
}

impl Field {
    /// A plain field: indexable, and known in full.
    pub fn new(name: &[u8], value: &[u8]) -> (r: Self)
        ensures
            r@ == (FieldView {
                name: name@,
                value: value@,
                sensitive: false,
                unknown: false,
            }),
    {
        Field {
            name: copy_bytes(name),
            value: copy_bytes(value),
            sensitive: false,
            unknown: false,
        }
    }

    /// The size this field counts for in the dynamic table.
    pub fn size(&self) -> (r: usize)
        requires
            field_size(self@) <= usize::MAX,
        ensures
            r == field_size(self@),
    {
        self.name.len() + self.value.len() + MIN_ENTRY_SIZE
    }

    /// The name as text, invalid UTF-8 replaced.
    pub fn name_str(&self) -> (r: Cow<'_, str>)
        ensures
            r@ == lossy_text(self.name@),
            valid_utf8(self.name@) ==> r@ == decode_utf8(self.name@),
    {
        lossy(&self.name)
    }

    /// The value as text, invalid UTF-8 replaced.
    pub fn value_str(&self) -> (r: Cow<'_, str>)
        ensures
            r@ == lossy_text(self.value@),
            valid_utf8(self.value@) ==> r@ == decode_utf8(self.value@),
    {
        lossy(&self.value)
    }

    /// The field on one line, for logs: name, value, and what is special about
    /// it.
    pub fn describe(&self) -> (r: String)
        ensures
            r@ == lossy_text(self.name@) + ": "@ + lossy_text(self.value@) + (if self.sensitive {
                " [sensitive]"@
            } else {
                Seq::<char>::empty()
            }) + (if self.unknown {
                " [unresolved]"@
            } else {
                Seq::<char>::empty()
            }),
    {
        let mut out: String = String::new();
        append_cow(&mut out, self.name_str());
        out.append(": ");
        append_cow(&mut out, self.value_str());
        if self.sensitive {
            out.append(" [sensitive]");
        }
        if self.unknown {
            out.append(" [unresolved]");
        }
        assert(out@ =~= lossy_text(self.name@) + ": "@ + lossy_text(self.value@) + (
        if self.sensitive {
            " [sensitive]"@
        } else {
            Seq::<char>::empty()
        }) + (if self.unknown {
            " [unresolved]"@
        } else {
            Seq::<char>::empty()
        }));
        out
    }
}

/// Appends a text, owned or not.
pub fn append_cow(out: &mut String, s: Cow<'_, str>)
    ensures
        final(out)@ == old(out)@ + s@,
{
    match s {
        Cow::Borrowed(t) => out.append(t),
        Cow::Owned(t) => out.append(t.as_str()),
    }
}

/// Why a header block does not decode.
#[derive(Debug, Clone, PartialEq, Eq)]
pub enum HpackError {
    Truncated,
    IntOverflow,
    ZeroIndex,
    /// Index past the end of the table on a connection whose table we know in
    /// full. Unlike an unresolved pre-capture index this is a genuine protocol
    /// or desync error.
    BadIndex(usize),
    Huffman,
}

impl HpackError {
    /// The error in words.
    pub fn message(&self) -> (r: String)
        ensures
            r@ == (match *self {
                HpackError::Truncated => "truncated header block"@,
                HpackError::IntOverflow => "integer overflow"@,
                HpackError::ZeroIndex => "index 0 is not valid"@,
                HpackError::BadIndex(i) => "index "@ + decimal(i as nat) + " out of range"@,
                HpackError::Huffman => "huffman decode failed"@,
            }),
    {
        match self {
            HpackError::Truncated => String::from_str("truncated header block"),
            HpackError::IntOverflow => String::from_str("integer overflow"),
            HpackError::ZeroIndex => String::from_str("index 0 is not valid"),
            HpackError::BadIndex(i) => {
                let mut out = String::from_str("index ");
                push_decimal(&mut out, *i as u64);
                out.append(" out of range");
                out
            },
            HpackError::Huffman => String::from_str("huffman decode failed"),
        }
    }
}

/// A decoder's state as a mathematical value.
#[verifier::ext_equal]
pub struct DecoderView {
    /// Observed entries only, newest first. Index 62 is `table[0]`.
    pub table: Seq<FieldView>,
    pub max_size: usize,
    /// True once no pre-capture entry can still be present. See module docs.
    pub exact: bool,
    /// Cumulative count of indices we could not resolve. It wraps.
    pub unresolved: u64,
    /// True when `max_size` came from the wire rather than being assumed.
    pub capacity_observed: bool,
    /// Refuse to track a table larger than this.
    pub track_limit: usize,
    /// The negotiated table exceeds `track_limit`, so it is not tracked.
    pub over_limit: bool,
}

/// The bytes a table counts for: the sizes of its entries added up.
pub open spec fn table_bytes(t: Seq<FieldView>) -> nat
    decreases t.len(),
{
    if t.len() == 0 {
        0
    } else {
        table_bytes(t.drop_last()) + field_size(t.last())
    }
}

/// What is left of a table when the oldest entries leave until it fits `max`
/// bytes.
pub open spec fn fit(t: Seq<FieldView>, max: int) -> Seq<FieldView>
    decreases t.len(),
{
    if t.len() == 0 || table_bytes(t) <= max {
        t
    } else {
        fit(t.drop_last(), max)
    }
}

/// Whether every entry was inserted under a name that is known. One that was not
/// counts for the size of its placeholder, so nothing can be told from the size
/// of a table that holds it.
pub open spec fn known_table(t: Seq<FieldView>) -> bool {
    forall|i: int| 0 <= i < t.len() ==> !(#[trigger] t[i]).unknown
}

/// Whether the state claims to know the table in full.
pub open spec fn claims_exact(d: DecoderView) -> bool {
    d.exact && !d.over_limit
}

/// Eviction down to the capacity. Evicting one of our own entries proves that
/// every pre-capture entry is gone, if the capacity and the sizes are the real
/// ones.
pub open spec fn evicted(d: DecoderView) -> DecoderView {
    let kept = fit(d.table, d.max_size as int);
    DecoderView {
        table: kept,
        exact: d.exact || (d.capacity_observed && kept.len() < d.table.len() && known_table(
            d.table,
        )),
        ..d
    }
}

/// A table that is too large to track is not tracked.
pub open spec fn limited(d: DecoderView) -> DecoderView {
    if d.max_size > d.track_limit {
        DecoderView { table: Seq::empty(), over_limit: true, ..d }
    } else {
        d
    }
}

/// A table filled so far that not even an empty entry fits beside ours holds
/// nothing else, if the capacity and the sizes are the real ones.
pub open spec fn rechecked(d: DecoderView) -> DecoderView {
    if d.capacity_observed && !d.over_limit && table_bytes(d.table) + 32 > d.max_size
        && known_table(d.table) {
        DecoderView { exact: true, ..d }
    } else {
        d
    }
}

/// The capacity becomes `n`, as signalled on the wire.
pub open spec fn resized(d: DecoderView, n: usize) -> DecoderView {
    rechecked(limited(evicted(DecoderView { capacity_observed: true, max_size: n, ..d })))
}

/// The peer advertises capacity `n`: lower ours to it, never raise it.
pub open spec fn peer_capped(d: DecoderView, n: usize) -> DecoderView {
    if n < d.max_size {
        resized(d, n)
    } else {
        DecoderView { capacity_observed: true, ..d }
    }
}

/// Everything about the table is forgotten, except its capacity.
pub open spec fn forgotten(d: DecoderView) -> DecoderView {
    DecoderView { table: Seq::empty(), exact: false, ..d }
}

/// The table after `f` is inserted. An entry larger than the whole table
/// empties it (RFC 7541 4.4), which proves that nothing older is left, if the
/// capacity and the entry's size are the real ones.
pub open spec fn inserted(d: DecoderView, f: FieldView) -> DecoderView {
    if d.over_limit {
        d
    } else if field_size(f) > d.max_size {
        DecoderView {
            table: Seq::empty(),
            exact: d.exact || (d.capacity_observed && !f.unknown),
            ..d
        }
    } else {
        rechecked(evicted(DecoderView { table: seq![f] + d.table, ..d }))
    }
}

/// The entry at index `idx`, where the static table or our own entries hold
/// one.
pub open spec fn entry_at(d: DecoderView, idx: usize) -> Option<FieldView> {
    if idx == 0 {
        None
    } else if idx <= STATIC_LEN {
        Some(
            FieldView {
                name: encode_utf8(static_text(idx as int).0),
                value: encode_utf8(static_text(idx as int).1),
                sensitive: false,
                unknown: false,
            },
        )
    } else if idx - STATIC_LEN - 1 < d.table.len() {
        Some(d.table[idx - STATIC_LEN - 1])
    } else {
        None
    }
}

/// The field that stands for a pre-capture entry.
pub open spec fn placeholder_for(idx: usize) -> FieldView {
    FieldView {
        name: encode_utf8("@unresolved-idx-"@ + decimal(idx as nat)),
        value: Seq::empty(),
        sensitive: false,
        unknown: true,
    }
}

/// Resolves an index: our entry, or a placeholder while pre-capture entries may
/// remain, or an error once they cannot.
pub open spec fn resolved(d: DecoderView, idx: usize) -> (
    DecoderView,
    Result<FieldView, HpackError>,
) {
    match entry_at(d, idx) {
        Some(f) => (d, Ok(f)),
        None => if claims_exact(d) {
            (d, Err(HpackError::BadIndex(idx)))
        } else {
            (
                DecoderView { unresolved: add64(d.unresolved, 1), ..d },
                Ok(placeholder_for(idx)),
            )
        },
    }
}

/// A literal field at the start of `b` whose name index has an `n`-bit prefix.
/// Gives the field and the number of bytes it takes.
pub open spec fn literal_at(d: DecoderView, b: Seq<u8>, n: u8) -> (
    DecoderView,
    Result<(FieldView, int), HpackError>,
) {
    match int_at(b, n) {
        Err(e) => (d, Err(e)),
        Ok((idx, used)) => {
            let (d1, name) = if idx == 0 {
                (
                    d,
                    match string_at(b.skip(used)) {
                        Err(e) => Err(e),
                        Ok((s, more)) => Ok((s, false, used + more)),
                    },
                )
            } else {
                let (d1, e) = resolved(d, idx);
                (
                    d1,
                    match e {
                        Err(e) => Err(e),
                        Ok(f) => Ok((f.name, f.unknown, used)),
                    },
                )
            };
            match name {
                Err(e) => (d1, Err(e)),
                Ok((name, unknown, used)) => match string_at(b.skip(used)) {
                    Err(e) => (d1, Err(e)),
                    Ok((value, more)) => (
                        d1,
                        Ok((FieldView { name, value, sensitive: false, unknown }, used + more)),
                    ),
                },
            }
        },
    }
}

/// One representation (RFC 7541 section 6) at the start of `b`: the state after
/// it, the field it yields, if any, and the number of bytes it takes.
#[verifier::opaque]
pub open spec fn representation_at(d: DecoderView, b: Seq<u8>) -> (
    DecoderView,
    Result<(Option<FieldView>, int), HpackError>,
) {
    if b[0] >= 0x80 {
        // Indexed header field.
        match int_at(b, 7) {
            Err(e) => (d, Err(e)),
            Ok((idx, used)) => if idx == 0 {
                (d, Err(HpackError::ZeroIndex))
            } else {
                match resolved(d, idx) {
                    (d1, Ok(f)) => (d1, Ok((Some(f), used))),
                    (d1, Err(e)) => (d1, Err(e)),
                }
            },
        }
    } else if b[0] >= 0x40 {
        // Literal with incremental indexing.
        match literal_at(d, b, 6) {
            (d1, Err(e)) => (d1, Err(e)),
            (d1, Ok((f, used))) => (inserted(d1, f), Ok((Some(f), used))),
        }
    } else if b[0] >= 0x20 {
        // Dynamic table size update.
        match int_at(b, 5) {
            Err(e) => (d, Err(e)),
            Ok((n, used)) => (resized(d, n), Ok((None, used))),
        }
    } else {
        // Literal never indexed, or without indexing.
        match literal_at(d, b, 4) {
            (d1, Err(e)) => (d1, Err(e)),
            (d1, Ok((f, used))) => (
                d1,
                Ok((Some(FieldView { sensitive: b[0] >= 0x10, ..f }), used)),
            ),
        }
    }
}

/// A literal takes at least one byte and no more than there are.
pub proof fn lemma_literal_bounds(d: DecoderView, b: Seq<u8>, n: u8)
    ensures
        literal_at(d, b, n).1 matches Ok((_, used)) ==> 1 <= used <= b.len(),
{
    lemma_int_at_bounds(b, n);
    if let Ok((idx, used)) = int_at(b, n) {
        lemma_string_at_bounds(b.skip(used));
        if idx == 0 {
            if let Ok((_, more)) = string_at(b.skip(used)) {
                lemma_string_at_bounds(b.skip(used + more));
            }
        }
    }
}

/// A representation takes at least one byte and no more than there are.
pub proof fn lemma_representation_bounds(d: DecoderView, b: Seq<u8>)
    ensures
        representation_at(d, b).1 matches Ok((_, used)) ==> 1 <= used <= b.len(),
{
    reveal(representation_at);
    lemma_int_at_bounds(b, 7);
    lemma_int_at_bounds(b, 5);
    lemma_literal_bounds(d, b, 6);
    lemma_literal_bounds(d, b, 4);
}

/// A complete header block: the state after it and the fields it yields. Where
/// it does not decode, the state is what the representations before the fault
/// made of it.
#[verifier::opaque]
pub open spec fn block_decoded(d: DecoderView, b: Seq<u8>) -> (
    DecoderView,
    Result<Seq<FieldView>, HpackError>,
)
    decreases b.len(),
{
    if b.len() == 0 {
        (d, Ok(Seq::empty()))
    } else {
        match representation_at(d, b) {
            (d1, Err(e)) => (d1, Err(e)),
            (d1, Ok((f, used))) => {
                proof {
                    lemma_representation_bounds(d, b);
                }
                match block_decoded(d1, b.skip(used)) {
                    (d2, Err(e)) => (d2, Err(e)),
                    (d2, Ok(fs)) => (
                        d2,
                        Ok(
                            match f {
                                Some(f) => seq![f] + fs,
                                None => fs,
                            },
                        ),
                    ),
                }
            },
        }
    }
}

proof fn lemma_unresolved_in_literal(d: DecoderView, b: Seq<u8>, n: u8)
    ensures
        literal_at(d, b, n).0.unresolved == d.unresolved || literal_at(d, b, n).0.unresolved
            == add64(d.unresolved, 1),
{
}

proof fn lemma_unresolved_in_representation(d: DecoderView, b: Seq<u8>)
    ensures
        representation_at(d, b).0.unresolved == d.unresolved || representation_at(
            d,
            b,
        ).0.unresolved == add64(d.unresolved, 1),
{
    reveal(representation_at);
    lemma_unresolved_in_literal(d, b, 6);
    lemma_unresolved_in_literal(d, b, 4);
}

/// A block counts no more references as unresolved than it has bytes.
pub proof fn lemma_unresolved_bound(d: DecoderView, b: Seq<u8>)
    ensures
        exists|k: int|
            0 <= k <= b.len() && #[trigger] add64(d.unresolved, k) == block_decoded(
                d,
                b,
            ).0.unresolved,
    decreases b.len(),
{
    reveal(block_decoded);
    if b.len() == 0 {
        assert(add64(d.unresolved, 0) == d.unresolved);
    } else {
        lemma_representation_bounds(d, b);
        lemma_unresolved_in_representation(d, b);
        let (d1, step) = representation_at(d, b);
        assert(add64(d.unresolved, 0) == d.unresolved);
        let more = if d1.unresolved == d.unresolved {
            0int
        } else {
            1
        };
        assert(d1.unresolved == add64(d.unresolved, more));
        match step {
            Err(_) => {
                assert(add64(d.unresolved, more) == block_decoded(d, b).0.unresolved);
            },
            Ok((_, used)) => {
                lemma_unresolved_bound(d1, b.skip(used));
                let k = choose|k: int|
                    0 <= k <= b.skip(used).len() && #[trigger] add64(d1.unresolved, k)
                        == block_decoded(d1, b.skip(used)).0.unresolved;
                assert(add64(d.unresolved, more + k) == block_decoded(d, b).0.unresolved) by {
                    lemma_add64_twice(d.unresolved, more, k);
                }
            },
        }
    }
}

/// HPACK decoder state for one direction of a connection.
#[derive(Debug, Clone)]
pub struct Decoder {
    /// Observed entries only, newest first. Index 62 is `table[0]`.
    table: VecDeque<Field>,
    size: usize,
    max_size: usize,
    /// True once no pre-capture entry can still be present. See module docs.
    exact: bool,
    /// Cumulative count of indices we could not resolve.
    unresolved: u64,
    /// True when `max_size` came from the wire (a dynamic table size update or
    /// the peer's SETTINGS) rather than being assumed to be the RFC default.
    ///
    /// It matters because the "table is full, so no pre-capture entry can
    /// remain" proof is only sound if `max_size` is actually right.
    capacity_observed: bool,
    /// Refuse to track a table larger than this. Guards the daemon's memory
    /// against a peer negotiating an enormous table.
    track_limit: usize,
    /// The negotiated table exceeds `track_limit`, so we are not tracking it.
    over_limit: bool,
}

impl View for Decoder {
    type V = DecoderView;

    closed spec fn view(&self) -> DecoderView {
        DecoderView {
            table: fields_view(self.table@),
            max_size: self.max_size,
            exact: self.exact,
            unresolved: self.unresolved,
            capacity_observed: self.capacity_observed,
            track_limit: self.track_limit,
            over_limit: self.over_limit,
        }
    }
}

/// The state of a decoder that joined mid-stream.
pub open spec fn partial_state() -> DecoderView {
    DecoderView {
        table: Seq::empty(),
        max_size: DEFAULT_TABLE_SIZE,
        exact: false,
        unresolved: 0,
        capacity_observed: false,
        track_limit: usize::MAX,
        over_limit: false,
    }
}

/// The state of a decoder that watches from the first byte.
pub open spec fn exact_state() -> DecoderView {
    DecoderView { exact: true, capacity_observed: true, ..partial_state() }
}

impl Decoder {
    /// The byte count is that of the entries held.
    pub closed spec fn wf(&self) -> bool {
        self.size == table_bytes(fields_view(self.table@))
    }

    /// A decoder for a connection we joined mid-stream: the table may contain
    /// entries we never saw.
    pub fn new_partial() -> (r: Self)
        ensures
            r.wf(),
            r@ == partial_state(),
    {
        let r = Decoder {
            table: VecDeque::new(),
            size: 0,
            max_size: DEFAULT_TABLE_SIZE,
            exact: false,
            unresolved: 0,
            capacity_observed: false,
            track_limit: usize::MAX,
            over_limit: false,
        };
        assert(r@.table =~= Seq::<FieldView>::empty());
        r
    }

    /// A decoder for a connection we watched from its first byte, so the table
    /// starts genuinely empty.
    pub fn new_exact() -> (r: Self)
        ensures
            r.wf(),
            r@ == exact_state(),
    {
        let mut d = Self::new_partial();
        d.exact = true;
        // From the first byte the RFC default applies until the peer changes
        // it, and any change is signalled on the wire. So the capacity is
        // known, not assumed.
        d.capacity_observed = true;
        d
    }

    /// Restore from a snapshot. The table is known in full, so this is exact.
    pub fn from_entries(entries: Vec<Field>, max_size: usize) -> (r: Self)
        requires
            table_bytes(fields_view(entries@)) <= usize::MAX,
        ensures
            r.wf(),
            r@ == (DecoderView {
                table: fields_view(entries@),
                max_size,
                ..exact_state()
            }),
    {
        let ghost all = entries@;
        let mut left = entries;
        let mut table: VecDeque<Field> = VecDeque::new();
        let mut size: usize = 0;
        proof {
            assert(all.subrange(all.len() as int, all.len() as int) =~= Seq::<Field>::empty());
            assert(fields_view(all) =~= fields_view(left@));
        }
        while left.len() > 0
            invariant
                left@.len() <= all.len(),
                left@ =~= all.take(left@.len() as int),
                table@ =~= all.skip(left@.len() as int),
                size + table_bytes(fields_view(left@)) == table_bytes(fields_view(all)),
                size == table_bytes(fields_view(table@)),
                table_bytes(fields_view(all)) <= usize::MAX,
            decreases left@.len(),
        {
            let ghost before = left@;
            let ghost had = table@;
            assert(fields_view(before).drop_last() =~= fields_view(before.drop_last()));
            assert(fields_view(before).last() == before.last()@);
            if let Some(f) = left.pop() {
                size = size + f.size();
                let ghost fv = f@;
                table.push_front(f);
                proof {
                    assert(fields_view(table@) =~= seq![fv] + fields_view(had));
                    lemma_table_bytes_front(fv, fields_view(had));
                }
            }
        }
        let r = Decoder {
            table,
            size,
            max_size,
            exact: true,
            unresolved: 0,
            capacity_observed: true,
            track_limit: usize::MAX,
            over_limit: false,
        };
        assert(table@ =~= all);
        r
    }

    /// Drop everything we think we know about the table, keeping the
    /// negotiated capacity.
    ///
    /// Used after a lost segment. Entries we observed are still in the peer's
    /// table, but insertions we missed have shifted them by an unknown amount,
    /// so continuing to index them would produce confidently wrong headers.
    pub fn reset_partial(&mut self)
        ensures
            final(self).wf(),
            final(self)@ == forgotten(old(self)@),
    {
        self.table.clear();
        self.size = 0;
        self.exact = false;
        assert(self@ =~= forgotten(old(self)@));
    }

    /// Whether the table is known in full.
    pub fn is_exact(&self) -> (r: bool)
        ensures
            r == claims_exact(self@),
    {
        self.exact && !self.over_limit
    }

    /// Whether `max_size` was learned from the wire rather than assumed.
    pub fn capacity_observed(&self) -> (r: bool)
        ensures
            r == self@.capacity_observed,
    {
        self.capacity_observed
    }

    /// The peer negotiated a table larger than we are willing to track.
    pub fn over_limit(&self) -> (r: bool)
        ensures
            r == self@.over_limit,
    {
        self.over_limit
    }

    /// Cap how large a dynamic table we will hold in memory. A peer that
    /// negotiates more than this is tracked as "not tracked" rather than
    /// allowed to consume unbounded memory.
    pub fn set_track_limit(&mut self, n: usize)
        requires
            old(self).wf(),
        ensures
            final(self).wf(),
            final(self)@ == limited(DecoderView { track_limit: n, ..old(self)@ }),
    {
        self.track_limit = n;
        self.enforce_limit();
    }

    fn enforce_limit(&mut self)
        requires
            old(self).wf(),
        ensures
            final(self).wf(),
            final(self)@ == limited(old(self)@),
    {
        if self.max_size > self.track_limit {
            self.over_limit = true;
            self.table.clear();
            self.size = 0;
        }
        assert(self@ =~= limited(old(self)@));
    }

    /// How many indices went unresolved so far.
    pub fn unresolved_refs(&self) -> (r: u64)
        ensures
            r == self@.unresolved,
    {
        self.unresolved
    }

    /// The table's capacity in bytes.
    pub fn max_size(&self) -> (r: usize)
        ensures
            r == self@.max_size,
    {
        self.max_size
    }

    /// The bytes that the entries held count for.
    pub fn table_size(&self) -> (r: usize)
        requires
            self.wf(),
        ensures
            r == table_bytes(self@.table),
    {
        self.size
    }

    /// The observed entries, newest first. This is what gets snapshotted.
    pub fn entries(&self) -> (r: std::collections::vec_deque::Iter<'_, Field>)
        ensures
            fields_view(vstd::std_specs::iter::IteratorSpec::remaining(&r).unref())
                == self@.table,
    {
        self.table.iter()
    }

    /// The number of entries held.
    pub fn entry_count(&self) -> (r: usize)
        ensures
            r == self@.table.len(),
    {
        self.table.len()
    }

    /// The entry at position `i`, newest first.
    pub fn entry(&self, i: usize) -> (r: &Field)
        requires
            i < self@.table.len(),
        ensures
            r@ == self@.table[i as int],
    {
        &self.table[i]
    }

    /// Apply a capacity advertised by the peer's SETTINGS_HEADER_TABLE_SIZE.
    /// An encoder may never exceed what its peer advertised, so lowering on
    /// this signal is safe. We never raise on it, because the encoder's own
    /// choice may be lower and it signals that with a size update instead.
    pub fn apply_peer_capacity(&mut self, n: usize)
        requires
            old(self).wf(),
        ensures
            final(self).wf(),
            final(self)@ == peer_capped(old(self)@, n),
    {
        self.capacity_observed = true;
        if n < self.max_size {
            self.resize(n);
        }
    }

    fn resize(&mut self, n: usize)
        requires
            old(self).wf(),
        ensures
            final(self).wf(),
            final(self)@ == resized(old(self)@, n),
    {
        // A size update on the wire tells us the real capacity.
        self.capacity_observed = true;
        self.max_size = n;
        let ghost start = self@;
        self.evict(n, true);
        assert(self@ =~= evicted(start));
        self.enforce_limit();
        self.recheck_exact();
    }

    /// Whether every entry was inserted under a name that is known.
    fn all_known(&self) -> (r: bool)
        ensures
            r == known_table(self@.table),
    {
        let mut i: usize = 0;
        while i < self.table.len()
            invariant
                i <= self.table@.len(),
                forall|j: int| 0 <= j < i ==> !(#[trigger] self@.table[j]).unknown,
            decreases self.table@.len() - i,
        {
            if self.table[i].unknown {
                assert(self@.table[i as int].unknown);
                return false;
            }
            i += 1;
        }
        true
    }

    /// Evicts oldest entries until at most `limit` bytes are held. `telling` says
    /// whether `limit` is the real one, as far as the capacity is.
    fn evict(&mut self, limit: usize, telling: bool)
        requires
            old(self).wf(),
        ensures
            final(self).wf(),
            final(self)@ == (DecoderView {
                table: fit(old(self)@.table, limit as int),
                exact: old(self)@.exact || (telling && old(self)@.capacity_observed && fit(
                    old(self)@.table,
                    limit as int,
                ).len() < old(self)@.table.len() && known_table(old(self)@.table)),
                ..old(self)@
            }),
    {
        let ghost start = self@;
        let proves: bool = telling && self.capacity_observed && !self.exact && self.all_known();
        while self.size > limit
            invariant
                self.wf(),
                proves == (telling && start.capacity_observed && !start.exact && known_table(
                    start.table,
                )),
                fit(start.table, limit as int) == fit(self@.table, limit as int),
                self@.table.len() <= start.table.len(),
                self@ == (DecoderView {
                    table: self@.table,
                    exact: start.exact || (proves && self@.table.len() < start.table.len()),
                    ..start
                }),
            ensures
                self.size <= limit,
            decreases self@.table.len(),
        {
            let ghost before = self@.table;
            proof {
                assert(before.len() > 0);
                assert(before.last() == self.table@.last()@);
                lemma_fit_shrinks(before, limit as int);
            }
            match self.table.pop_back() {
                Some(f) => {
                    assert(fields_view(self.table@) =~= before.drop_last());
                    self.size = self.size - f.size();
                    // We just evicted one of our own entries. Since every
                    // pre-capture entry is older than every entry of ours,
                    // they must all already be gone - but only if the capacity
                    // we evicted against is the real one, and the sizes are.
                    if proves {
                        self.exact = true;
                    }
                },
                None => {},
            }
        }
    }

    fn recheck_exact(&mut self)
        requires
            old(self).wf(),
        ensures
            final(self).wf(),
            final(self)@ == rechecked(old(self)@),
    {
        // Only sound when we actually know the capacity: if the peer
        // negotiated a bigger table than we assume, our copy saturates early
        // and "full" proves nothing.
        if !self.capacity_observed || self.over_limit {
            return;
        }
        if !self.exact && (self.size > self.max_size || self.max_size - self.size
            < MIN_ENTRY_SIZE) && self.all_known() {
            // Not even a zero-length entry could still fit alongside ours.
            self.exact = true;
        }
    }

    fn insert(&mut self, f: Field)
        requires
            old(self).wf(),
        ensures
            final(self).wf(),
            final(self)@ == inserted(old(self)@, f@),
    {
        if self.over_limit {
            // Not tracking this table; every index into it stays unresolved.
            return;
        }
        let max = self.max_size;
        if f.name.len() > max || f.value.len() > max - f.name.len() || MIN_ENTRY_SIZE > max
            - f.name.len() - f.value.len() {
            // RFC 7541 4.4: the entry is not added and the table is emptied.
            self.table.clear();
            self.size = 0;
            if self.capacity_observed && !f.unknown {
                self.exact = true;
            }
            assert(self@ =~= inserted(old(self)@, f@));
            return;
        }
        let need = f.size();
        // Making room first and adding the entry then never counts past the
        // capacity; what stays is the same.
        let ghost room = seq![f@] + old(self)@.table;
        assert(known_table(room) == (!f@.unknown && known_table(old(self)@.table))) by {
            assert(room[0] == f@);
            assert(forall|i: int|
                0 <= i < old(self)@.table.len() ==> #[trigger] old(self)@.table[i] == room[i + 1]);
            if !f@.unknown && known_table(old(self)@.table) {
                assert forall|i: int| 0 <= i < room.len() implies !(#[trigger] room[i]).unknown by {
                    if i > 0 {
                        assert(room[i] == old(self)@.table[i - 1]);
                    }
                }
            }
        }
        self.evict(max - need, !f.unknown);
        let ghost kept = self@.table;
        proof {
            lemma_fit_bytes(old(self)@.table, max - need);
        }
        self.size = self.size + need;
        self.table.push_front(f);
        proof {
            lemma_fit_front(f@, old(self)@.table, max as int);
            lemma_table_bytes_front(f@, kept);
            assert(fields_view(self.table@) =~= seq![f@] + kept);
            assert(self@ =~= evicted(
                DecoderView { table: seq![f@] + old(self)@.table, ..old(self)@ },
            ));
        }
        self.recheck_exact();
    }

    /// Resolve a table index. `None` means it points into the pre-capture
    /// region, which is only possible while `!exact`.
    fn lookup(&self, idx: usize) -> (r: Option<Field>)
        ensures
            match r {
                Some(f) => entry_at(self@, idx) == Some(f@),
                None => entry_at(self@, idx) is None,
            },
    {
        if idx == 0 {
            return None;
        }
        if idx <= STATIC_LEN {
            let (n, v) = static_entry(idx);
            return Some(Field::new(n.as_bytes(), v.as_bytes()));
        }
        let i = idx - STATIC_LEN - 1;
        if i < self.table.len() {
            Some(self.table[i].clone())
        } else {
            None
        }
    }

    fn placeholder(&mut self, idx: usize) -> (r: Field)
        requires
            old(self).wf(),
        ensures
            final(self).wf(),
            final(self)@ == (DecoderView {
                unresolved: add64(old(self)@.unresolved, 1),
                ..old(self)@
            }),
            r@ == placeholder_for(idx),
    {
        self.unresolved = self.unresolved.wrapping_add(1);
        let mut name = String::from_str("@unresolved-idx-");
        push_decimal(&mut name, idx as u64);
        let r = Field {
            name: copy_bytes(name.as_str().as_bytes()),
            value: Vec::new(),
            sensitive: false,
            unknown: true,
        };
        assert(r@ =~= placeholder_for(idx));
        r
    }

    /// The entry at `idx`, a placeholder for it, or the error that it is.
    fn resolve(&mut self, idx: usize) -> (r: Result<Field, HpackError>)
        requires
            old(self).wf(),
        ensures
            final(self).wf(),
            final(self)@ == resolved(old(self)@, idx).0,
            match r {
                Ok(f) => resolved(old(self)@, idx).1 == Ok::<FieldView, HpackError>(f@),
                Err(e) => resolved(old(self)@, idx).1 == Err::<FieldView, HpackError>(e),
            },
    {
        match self.lookup(idx) {
            Some(f) => Ok(f),
            None => {
                if self.is_exact() {
                    Err(HpackError::BadIndex(idx))
                } else {
                    Ok(self.placeholder(idx))
                }
            },
        }
    }

    /// Decode one complete header block (HEADERS plus any CONTINUATION
    /// fragments, concatenated).
    pub fn decode(&mut self, block: &[u8]) -> (r: Result<Vec<Field>, HpackError>)
        requires
            old(self).wf(),
        ensures
            final(self).wf(),
            final(self)@ == block_decoded(old(self)@, block@).0,
            match r {
                Ok(fs) => block_decoded(old(self)@, block@).1 == Ok::<
                    Seq<FieldView>,
                    HpackError,
                >(fields_view(fs@)),
                Err(e) => block_decoded(old(self)@, block@).1 == Err::<
                    Seq<FieldView>,
                    HpackError,
                >(e),
            },
    {
        let mut out: Vec<Field> = Vec::new();
        let mut b = block;
        let ghost whole = block_decoded(self@, block@);
        assert(forall|s: Seq<FieldView>| fields_view(Seq::<Field>::empty()) + s =~= s);
        while b.len() > 0
            invariant
                self.wf(),
                whole == block_decoded(old(self)@, block@),
                whole.0 == block_decoded(self@, b@).0,
                match block_decoded(self@, b@).1 {
                    Ok(fs) => whole.1 == Ok::<Seq<FieldView>, HpackError>(
                        fields_view(out@) + fs,
                    ),
                    Err(e) => whole.1 == Err::<Seq<FieldView>, HpackError>(e),
                },
            decreases b@.len(),
        {
            let ghost d0 = self@;
            let ghost b0 = b@;
            let ghost out0 = fields_view(out@);
            proof {
                reveal(block_decoded);
                lemma_representation_bounds(d0, b0);
            }
            match self.decode_one(b) {
                Err(e) => return Err(e),
                Ok((f, rest)) => {
                    b = rest;
                    if let Some(f) = f {
                        out.push(f);
                        proof {
                            assert(fields_view(out@) =~= out0.push(f@));
                            assert(forall|s: Seq<FieldView>|
                                #![trigger out0 + (seq![f@] + s)]
                                out0.push(f@) + s =~= out0 + (seq![f@] + s));
                        }
                    }
                },
            }
        }
        proof {
            reveal(block_decoded);
            assert(fields_view(out@) + Seq::<FieldView>::empty() =~= fields_view(out@));
        }
        Ok(out)
    }

    /// Decode one representation: the field it yields, if any, and what is left
    /// of the block.
    fn decode_one<'a>(&mut self, b: &'a [u8]) -> (r: Result<
        (Option<Field>, &'a [u8]),
        HpackError,
    >)
        requires
            old(self).wf(),
            b@.len() > 0,
        ensures
            final(self).wf(),
            final(self)@ == representation_at(old(self)@, b@).0,
            match r {
                Ok((f, rest)) => {
                    &&& representation_at(old(self)@, b@).1 matches Ok((v, used))
                    &&& match f {
                        Some(f) => v == Some(f@),
                        None => v is None,
                    }
                    &&& rest@ == b@.skip(used)
                },
                Err(e) => representation_at(old(self)@, b@).1 == Err::<
                    (Option<FieldView>, int),
                    HpackError,
                >(e),
            },
    {
        proof {
            reveal(representation_at);
        }
        let first = b[0];
        if first >= 0x80 {
            // Indexed header field.
            match read_int(b, 7) {
                Err(e) => Err(e),
                Ok((idx, rest)) => {
                    if idx == 0 {
                        return Err(HpackError::ZeroIndex);
                    }
                    match self.resolve(idx) {
                        Err(e) => Err(e),
                        Ok(f) => Ok((Some(f), rest)),
                    }
                },
            }
        } else if first >= 0x40 {
            // Literal with incremental indexing.
            match self.read_literal(b, 6) {
                Err(e) => Err(e),
                Ok((f, rest)) => {
                    // Insert even when the name is a placeholder: the entry
                    // occupies a real slot in the peer's table, so skipping it
                    // would shift every later index by one and corrupt the
                    // rest of the connection.
                    self.insert(f.clone());
                    Ok((Some(f), rest))
                },
            }
        } else if first >= 0x20 {
            // Dynamic table size update.
            match read_int(b, 5) {
                Err(e) => Err(e),
                Ok((n, rest)) => {
                    self.resize(n);
                    Ok((None, rest))
                },
            }
        } else {
            // Literal never indexed, or without indexing.
            match self.read_literal(b, 4) {
                Err(e) => Err(e),
                Ok((f, rest)) => {
                    let mut f = f;
                    f.sensitive = first >= 0x10;
                    Ok((Some(f), rest))
                },
            }
        }
    }

    /// Reads a literal field whose name index has an N-bit prefix.
    fn read_literal<'a>(&mut self, b: &'a [u8], prefix: u8) -> (r: Result<
        (Field, &'a [u8]),
        HpackError,
    >)
        requires
            old(self).wf(),
            1 <= prefix <= 8,
        ensures
            final(self).wf(),
            final(self)@ == literal_at(old(self)@, b@, prefix).0,
            match r {
                Ok((f, rest)) => {
                    &&& literal_at(old(self)@, b@, prefix).1 matches Ok((v, used))
                    &&& f@ == v
                    &&& rest@ == b@.skip(used)
                },
                Err(e) => literal_at(old(self)@, b@, prefix).1 == Err::<
                    (FieldView, int),
                    HpackError,
                >(e),
            },
    {
        proof {
            lemma_int_at_bounds(b@, prefix);
        }
        match read_int(b, prefix) {
            Err(e) => Err(e),
            Ok((idx, after_idx)) => {
                let ghost used = int_at(b@, prefix)->Ok_0.1;
                let mut rest = after_idx;
                let mut f = Field {
                    name: Vec::new(),
                    value: Vec::new(),
                    sensitive: false,
                    unknown: false,
                };
                if idx == 0 {
                    proof {
                        lemma_string_at_bounds(b@.skip(used));
                    }
                    match read_string(rest) {
                        Err(e) => return Err(e),
                        Ok((name, after)) => {
                            proof {
                                let more = string_at(b@.skip(used))->Ok_0.1;
                                assert(after@ =~= b@.skip(used + more));
                                used = used + more;
                            }
                            rest = after;
                            f.name = name;
                        },
                    }
                } else {
                    match self.resolve(idx) {
                        Err(e) => return Err(e),
                        Ok(e) => {
                            f.unknown = e.unknown;
                            f.name = e.name;
                        },
                    }
                }
                proof {
                    lemma_string_at_bounds(b@.skip(used));
                }
                match read_string(rest) {
                    Err(e) => Err(e),
                    Ok((value, after)) => {
                        proof {
                            let more = string_at(b@.skip(used))->Ok_0.1;
                            assert(after@ =~= b@.skip(used + more));
                        }
                        f.value = value;
                        Ok((f, after))
                    },
                }
            },
        }
    }
}

/// An entry at the front adds its size.
pub proof fn lemma_table_bytes_front(f: FieldView, t: Seq<FieldView>)
    ensures
        table_bytes(seq![f] + t) == field_size(f) + table_bytes(t),
    decreases t.len(),
{
    let all = seq![f] + t;
    if t.len() == 0 {
        assert(all.drop_last() =~= Seq::<FieldView>::empty());
        assert(table_bytes(all.drop_last()) == 0);
        assert(all.last() == f);
    } else {
        lemma_table_bytes_front(f, t.drop_last());
        assert(all.drop_last() =~= seq![f] + t.drop_last());
        assert(all.last() == t.last());
    }
}

/// A table that does not fit loses its oldest entry first.
proof fn lemma_fit_shrinks(t: Seq<FieldView>, max: int)
    requires
        table_bytes(t) > max,
        t.len() > 0,
    ensures
        fit(t, max) == fit(t.drop_last(), max),
        table_bytes(t) == table_bytes(t.drop_last()) + field_size(t.last()),
{
}

/// What stays fits, where there is room for anything at all.
pub proof fn lemma_fit_bytes(t: Seq<FieldView>, max: int)
    requires
        max >= 0,
    ensures
        table_bytes(fit(t, max)) <= max,
        fit(t, max) == t.take(fit(t, max).len() as int),
        fit(t, max).len() <= t.len(),
    decreases t.len(),
{
    if t.len() == 0 {
        assert(t =~= t.take(0));
    } else if table_bytes(t) <= max {
        assert(t =~= t.take(t.len() as int));
    } else {
        lemma_fit_bytes(t.drop_last(), max);
        let n = fit(t, max).len() as int;
        assert(t.drop_last().take(n) =~= t.take(n));
    }
}

/// Making room for an entry and then adding it leaves the same table as adding
/// it and then evicting.
pub proof fn lemma_fit_front(f: FieldView, t: Seq<FieldView>, max: int)
    requires
        field_size(f) <= max,
    ensures
        fit(seq![f] + t, max) == seq![f] + fit(t, max - field_size(f)),
    decreases t.len(),
{
    let all = seq![f] + t;
    lemma_table_bytes_front(f, t);
    if t.len() == 0 {
        assert(all =~= seq![f]);
        assert(table_bytes(t) == 0);
    } else if table_bytes(t) <= max - field_size(f) {
    } else {
        assert(all.drop_last() =~= seq![f] + t.drop_last());
        lemma_fit_front(f, t.drop_last(), max);
    }
}

/// The bytes of one field as a literal that no decoder indexes: a flag byte,
/// the name, the value.
pub open spec fn literal_bytes(f: FieldView) -> Seq<u8> {
    seq![
        if f.sensitive {
            0x10u8
        } else {
            0x00u8
        },
    ] + string_bytes(f.name) + string_bytes(f.value)
}

/// The bytes of a header list in which every field is such a literal.
pub open spec fn literal_block(fs: Seq<FieldView>) -> Seq<u8>
    decreases fs.len(),
{
    if fs.len() == 0 {
        Seq::empty()
    } else {
        literal_block(fs.drop_last()) + literal_bytes(fs.last())
    }
}

/// Re-encode a header list so it is decodable with no dynamic table at all:
/// every field is a literal with a fresh name, never indexed, never Huffman
/// coded. The output is deliberately verbose and deliberately stateless, which
/// is the whole point of the normalized capture.
pub fn encode_literal(fields: &[Field]) -> (r: Vec<u8>)
    ensures
        r@ == literal_block(fields_view(fields@)),
{
    let mut out: Vec<u8> = Vec::new();
    let mut i: usize = 0;
    let ghost all = fields_view(fields@);
    while i < fields.len()
        invariant
            i <= fields@.len(),
            all == fields_view(fields@),
            out@ == literal_block(all.take(i as int)),
        decreases fields@.len() - i,
    {
        let f = &fields[i];
        let ghost before = out@;
        // 0x10 = literal never indexed, 0x00 = literal without indexing.
        // Both leave the decoder's dynamic table untouched.
        out.push(if f.sensitive { 0x10 } else { 0x00 });
        write_string(&mut out, &f.name);
        write_string(&mut out, &f.value);
        proof {
            let upto = all.take(i + 1);
            assert(upto.drop_last() =~= all.take(i as int));
            assert(upto.last() == f@);
            assert(out@ =~= before + literal_bytes(f@));
        }
        i += 1;
    }
    assert(all.take(fields@.len() as int) =~= all);
    out
}

} // verus!
