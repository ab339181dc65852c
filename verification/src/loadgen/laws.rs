//! What the generated requests say.
use vstd::prelude::*;

use crate::hpack::wire::{
    law_dynamic_index_reads, law_literal_with_new_name, law_static_index_reads_anywhere,
    law_static_table_is_appendix_a, plain_field,
};
use crate::hpack::{
    block_decoded, inserted, lemma_fit_front, lemma_representation_bounds,
    representation_at, DecoderView, FieldView, HpackError,
};
use crate::loadgen::{name_stem, padded, request_bytes, value_stem};

verus! {

/// The number that decimal digits stand for.
pub open spec fn digits_value(s: Seq<u8>) -> int
    decreases s.len(),
{
    if s.len() == 0 {
        0
    } else {
        digits_value(s.drop_last()) * 10 + (s.last() - 0x30)
    }
}

/// Padded digits are digits, at least as many as asked for, and stand for the number.
/// There are more than that only where the number needs them.
pub proof fn law_padded_digits_are_the_number(n: nat, width: nat)
    ensures
        padded(n, width).len() >= width,
        padded(n, width).len() > width ==> padded(n, width)[0] != 0x30,
        digits_value(padded(n, width)) == n,
        forall|i: int|
            0 <= i < padded(n, width).len() ==> 0x30 <= #[trigger] padded(n, width)[i] <= 0x39,
    decreases n + width,
{
    if n != 0 || width != 0 {
        let w: nat = if width > 0 {
            (width - 1) as nat
        } else {
            0
        };
        law_padded_digits_are_the_number(n / 10, w);
        let s = padded(n, width);
        let t = padded(n / 10, w);
        assert(s.drop_last() =~= t);
        assert(s.last() == 0x30 + n % 10);
        if t.len() > 0 {
            assert(s[0] == t[0]);
        }
        assert forall|i: int| 0 <= i < s.len() implies 0x30 <= #[trigger] s[i] <= 0x39 by {
            if i < t.len() {
                assert(s[i] == t[i]);
            }
        }
    }
}

proof fn lemma_padded_len(n: nat, width: nat, limit: nat)
    requires
        width <= limit,
        n < ten_to(limit),
    ensures
        padded(n, width).len() <= limit,
    decreases n + width,
{
    if n != 0 || width != 0 {
        assert(limit > 0);
        lemma_padded_len(
            n / 10,
            if width > 0 {
                (width - 1) as nat
            } else {
                0
            },
            (limit - 1) as nat,
        );
    }
}

spec fn ten_to(k: nat) -> nat
    decreases k,
{
    if k == 0 {
        1
    } else {
        10 * ten_to((k - 1) as nat)
    }
}

proof fn lemma_twenty_digits()
    ensures
        ten_to(20) > u64::MAX,
{
    reveal_with_fuel(ten_to, 21);
}

proof fn lemma_one_more(
    d: DecoderView,
    d1: DecoderView,
    d2: DecoderView,
    b: Seq<u8>,
    f: FieldView,
    used: int,
    fs: Seq<FieldView>,
)
    requires
        b.len() > 0,
        representation_at(d, b) == (
            d1,
            Ok::<(Option<FieldView>, int), HpackError>((Some(f), used)),
        ),
        block_decoded(d1, b.skip(used)) == (d2, Ok::<Seq<FieldView>, HpackError>(fs)),
    ensures
        block_decoded(d, b) == (d2, Ok::<Seq<FieldView>, HpackError>(seq![f] + fs)),
{
    reveal(block_decoded);
    lemma_representation_bounds(d, b);
}

/// A generated request is one: to a decoder with room for it, request `n` is a GET of
/// the root over https, with one new field, twice. The field is named by the last
/// three digits of `n` and its value holds all of `n`; it goes into the table, and the
/// second time it is read from there.
pub proof fn law_request_says_what_it_should(d: DecoderView, n: u64)
    requires
        !d.over_limit,
        d.max_size >= 128,
    ensures
        ({
            let f = FieldView {
                name: name_stem() + padded((n % 1000) as nat, 6),
                value: value_stem() + padded(n as nat, 15),
                sensitive: false,
                unknown: false,
            };
            block_decoded(d, request_bytes(n)) == (
                inserted(d, f),
                Ok::<Seq<FieldView>, HpackError>(
                    seq![
                        plain_field(":method"@, "GET"@),
                        plain_field(":scheme"@, "https"@),
                        plain_field(":path"@, "/"@),
                        f,
                        f,
                    ],
                ),
            )
        }),
{
    let name = name_stem() + padded((n % 1000) as nat, 6);
    let value = value_stem() + padded(n as nat, 15);
    let f = FieldView { name, value, sensitive: false, unknown: false };
    lemma_twenty_digits();
    lemma_padded_len(n as nat, 15, 20);
    lemma_padded_len((n % 1000) as nat, 6, 20);
    law_static_table_is_appendix_a(d);
    let d1 = inserted(d, f);
    let none = Seq::<u8>::empty();
    let b5 = seq![0xbeu8];
    let lit = seq![0x40u8] + (seq![name.len() as u8] + name) + (seq![value.len() as u8] + value);
    let b4 = lit + b5;
    let b3 = seq![0x84u8] + b4;
    let b2 = seq![0x87u8] + b3;
    let b1 = seq![0x82u8] + b2;
    assert(request_bytes(n) =~= b1);
    law_literal_with_new_name(d, 0x40, 6, true, false, name, value, b5);
    assert(d1.table.len() > 0 && d1.table[0] == f) by {
        lemma_fit_front(f, d.table, d.max_size as int);
    }
    law_dynamic_index_reads(d1, 0);
    law_static_index_reads_anywhere(d, 2, ":method"@, "GET"@, b2);
    law_static_index_reads_anywhere(d, 7, ":scheme"@, "https"@, b3);
    law_static_index_reads_anywhere(d, 4, ":path"@, "/"@, b4);
    assert(block_decoded(d1, none) == (
        d1,
        Ok::<Seq<FieldView>, HpackError>(Seq::<FieldView>::empty()),
    )) by {
        reveal(block_decoded);
    }
    assert(b5.skip(1) =~= none);
    let s5 = seq![f] + Seq::<FieldView>::empty();
    lemma_one_more(d1, d1, d1, b5, f, 1, Seq::empty());
    let used = 3int + name.len() + value.len();
    assert(b4.skip(used) =~= b5);
    let s4 = seq![f] + s5;
    lemma_one_more(d, d1, d1, b4, f, used, s5);
    assert(b3.skip(1) =~= b4);
    let s3 = seq![plain_field(":path"@, "/"@)] + s4;
    lemma_one_more(d, d, d1, b3, plain_field(":path"@, "/"@), 1, s4);
    assert(b2.skip(1) =~= b3);
    let s2 = seq![plain_field(":scheme"@, "https"@)] + s3;
    lemma_one_more(d, d, d1, b2, plain_field(":scheme"@, "https"@), 1, s3);
    assert(b1.skip(1) =~= b2);
    lemma_one_more(d, d, d1, b1, plain_field(":method"@, "GET"@), 1, s2);
    assert(seq![plain_field(":method"@, "GET"@)] + s2 =~= seq![
        plain_field(":method"@, "GET"@),
        plain_field(":scheme"@, "https"@),
        plain_field(":path"@, "/"@),
        f,
        f,
    ]);
}

} // verus!
