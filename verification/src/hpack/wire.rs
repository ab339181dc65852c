//! The wire format, byte by byte: what each first byte means, and what the static
//! indices stand for.
use vstd::prelude::*;
use vstd::utf8::*;

use crate::hpack::laws::law_string_round_trip;
use crate::hpack::primitive::{group_weight, int_at, int_tail, prefix_max, string_at, string_bytes};
use crate::hpack::static_table::static_text;
use crate::hpack::{
    block_decoded, claims_exact, entry_at, inserted, lemma_representation_bounds, literal_at,
    representation_at, resolved, DecoderView, FieldView, HpackError,
};

verus! {

// ---------------------------------------------------------------------------
// The static table
// ---------------------------------------------------------------------------

/// A field as it stands in the static table.
pub open spec fn plain_field(name: Seq<char>, value: Seq<char>) -> FieldView {
    FieldView {
        name: encode_utf8(name),
        value: encode_utf8(value),
        sensitive: false,
        unknown: false,
    }
}

/// Whether the header block that consists of static index `i` alone is this field,
/// to a decoder in state `d`.
#[verifier::opaque]
pub open spec fn reads_as(d: DecoderView, i: u8, name: Seq<char>, value: Seq<char>) -> bool {
    block_decoded(d, seq![(0x80 + i) as u8]) == (
        d,
        Ok::<Seq<FieldView>, HpackError>(seq![plain_field(name, value)]),
    )
}

proof fn lemma_index_reads(d: DecoderView, i: u8)
    requires
        1 <= i <= 61,
    ensures
        reads_as(d, i, static_text(i as int).0, static_text(i as int).1),
{
    reveal(reads_as);
    reveal(block_decoded);
    reveal(representation_at);
    let b = seq![(0x80 + i) as u8];
    law_small_integer_is_its_prefix((0x80 + i) as u8, 7, Seq::empty());
    assert(b + Seq::<u8>::empty() =~= b);
    assert(b.skip(1) =~= Seq::<u8>::empty());
    let f = plain_field(static_text(i as int).0, static_text(i as int).1);
    assert(resolved(d, i as usize) == (d, Ok::<FieldView, HpackError>(f)));
    assert(representation_at(d, b) == (
        d,
        Ok::<(Option<FieldView>, int), HpackError>((Some(f), 1int)),
    ));
    lemma_representation_bounds(d, b);
    assert(block_decoded(d, b.skip(1)) == (
        d,
        Ok::<Seq<FieldView>, HpackError>(Seq::<FieldView>::empty()),
    ));
    assert(seq![f] + Seq::<FieldView>::empty() =~= seq![f]);
}

/// The static table is that of RFC 7541 Appendix A: a block that consists of one
/// static index reads as the field that the appendix has there, to every decoder,
/// and changes nothing.
pub proof fn law_static_table_is_appendix_a(d: DecoderView)
    ensures
        reads_as(d, 1, ":authority"@, ""@),
        reads_as(d, 2, ":method"@, "GET"@),
        reads_as(d, 3, ":method"@, "POST"@),
        reads_as(d, 4, ":path"@, "/"@),
        reads_as(d, 5, ":path"@, "/index.html"@),
        reads_as(d, 6, ":scheme"@, "http"@),
        reads_as(d, 7, ":scheme"@, "https"@),
        reads_as(d, 8, ":status"@, "200"@),
        reads_as(d, 9, ":status"@, "204"@),
        reads_as(d, 10, ":status"@, "206"@),
        reads_as(d, 11, ":status"@, "304"@),
        reads_as(d, 12, ":status"@, "400"@),
        reads_as(d, 13, ":status"@, "404"@),
        reads_as(d, 14, ":status"@, "500"@),
        reads_as(d, 15, "accept-charset"@, ""@),
        reads_as(d, 16, "accept-encoding"@, "gzip, deflate"@),
        reads_as(d, 17, "accept-language"@, ""@),
        reads_as(d, 18, "accept-ranges"@, ""@),
        reads_as(d, 19, "accept"@, ""@),
        reads_as(d, 20, "access-control-allow-origin"@, ""@),
        reads_as(d, 21, "age"@, ""@),
        reads_as(d, 22, "allow"@, ""@),
        reads_as(d, 23, "authorization"@, ""@),
        reads_as(d, 24, "cache-control"@, ""@),
        reads_as(d, 25, "content-disposition"@, ""@),
        reads_as(d, 26, "content-encoding"@, ""@),
        reads_as(d, 27, "content-language"@, ""@),
        reads_as(d, 28, "content-length"@, ""@),
        reads_as(d, 29, "content-location"@, ""@),
        reads_as(d, 30, "content-range"@, ""@),
        reads_as(d, 31, "content-type"@, ""@),
        reads_as(d, 32, "cookie"@, ""@),
        reads_as(d, 33, "date"@, ""@),
        reads_as(d, 34, "etag"@, ""@),
        reads_as(d, 35, "expect"@, ""@),
        reads_as(d, 36, "expires"@, ""@),
        reads_as(d, 37, "from"@, ""@),
        reads_as(d, 38, "host"@, ""@),
        reads_as(d, 39, "if-match"@, ""@),
        reads_as(d, 40, "if-modified-since"@, ""@),
        reads_as(d, 41, "if-none-match"@, ""@),
        reads_as(d, 42, "if-range"@, ""@),
        reads_as(d, 43, "if-unmodified-since"@, ""@),
        reads_as(d, 44, "last-modified"@, ""@),
        reads_as(d, 45, "link"@, ""@),
        reads_as(d, 46, "location"@, ""@),
        reads_as(d, 47, "max-forwards"@, ""@),
        reads_as(d, 48, "proxy-authenticate"@, ""@),
        reads_as(d, 49, "proxy-authorization"@, ""@),
        reads_as(d, 50, "range"@, ""@),
        reads_as(d, 51, "referer"@, ""@),
        reads_as(d, 52, "refresh"@, ""@),
        reads_as(d, 53, "retry-after"@, ""@),
        reads_as(d, 54, "server"@, ""@),
        reads_as(d, 55, "set-cookie"@, ""@),
        reads_as(d, 56, "strict-transport-security"@, ""@),
        reads_as(d, 57, "transfer-encoding"@, ""@),
        reads_as(d, 58, "user-agent"@, ""@),
        reads_as(d, 59, "vary"@, ""@),
        reads_as(d, 60, "via"@, ""@),
        reads_as(d, 61, "www-authenticate"@, ""@),
{
    lemma_index_reads(d, 1);
    lemma_index_reads(d, 2);
    lemma_index_reads(d, 3);
    lemma_index_reads(d, 4);
    lemma_index_reads(d, 5);
    lemma_index_reads(d, 6);
    lemma_index_reads(d, 7);
    lemma_index_reads(d, 8);
    lemma_index_reads(d, 9);
    lemma_index_reads(d, 10);
    lemma_index_reads(d, 11);
    lemma_index_reads(d, 12);
    lemma_index_reads(d, 13);
    lemma_index_reads(d, 14);
    lemma_index_reads(d, 15);
    lemma_index_reads(d, 16);
    lemma_index_reads(d, 17);
    lemma_index_reads(d, 18);
    lemma_index_reads(d, 19);
    lemma_index_reads(d, 20);
    lemma_index_reads(d, 21);
    lemma_index_reads(d, 22);
    lemma_index_reads(d, 23);
    lemma_index_reads(d, 24);
    lemma_index_reads(d, 25);
    lemma_index_reads(d, 26);
    lemma_index_reads(d, 27);
    lemma_index_reads(d, 28);
    lemma_index_reads(d, 29);
    lemma_index_reads(d, 30);
    lemma_index_reads(d, 31);
    lemma_index_reads(d, 32);
    lemma_index_reads(d, 33);
    lemma_index_reads(d, 34);
    lemma_index_reads(d, 35);
    lemma_index_reads(d, 36);
    lemma_index_reads(d, 37);
    lemma_index_reads(d, 38);
    lemma_index_reads(d, 39);
    lemma_index_reads(d, 40);
    lemma_index_reads(d, 41);
    lemma_index_reads(d, 42);
    lemma_index_reads(d, 43);
    lemma_index_reads(d, 44);
    lemma_index_reads(d, 45);
    lemma_index_reads(d, 46);
    lemma_index_reads(d, 47);
    lemma_index_reads(d, 48);
    lemma_index_reads(d, 49);
    lemma_index_reads(d, 50);
    lemma_index_reads(d, 51);
    lemma_index_reads(d, 52);
    lemma_index_reads(d, 53);
    lemma_index_reads(d, 54);
    lemma_index_reads(d, 55);
    lemma_index_reads(d, 56);
    lemma_index_reads(d, 57);
    lemma_index_reads(d, 58);
    lemma_index_reads(d, 59);
    lemma_index_reads(d, 60);
    lemma_index_reads(d, 61);
    reveal(static_text);
}

/// A number by which to tell static entries apart.
spec fn mark(t: (Seq<char>, Seq<char>)) -> int {
    let (n, v) = t;
    n.len() + 37 * v.len() + 64 * (n.last() as int) + 17 * (n[1] as int) + if v.len() > 0 {
        5 * (v.last() as int) + (v[0] as int)
    } else {
        0
    }
}

/// The entry with that number.
spec fn entry_marked(m: int) -> int {
    if m == 9403 {
        1
    } else if m == 8862 {
        2
    } else if m == 8908 {
        3
    } else if m == 8884 {
        4
    } else if m == 9559 {
        5
    } else if m == 9238 {
        6
    } else if m == 9290 {
        7
    } else if m == 9723 {
        8
    } else if m == 9743 {
        9
    } else if m == 9753 {
        10
    } else if m == 9744 {
        11
    } else if m == 9725 {
        12
    } else if m == 9745 {
        13
    } else if m == 9726 {
        14
    } else if m == 9121 {
        15
    } else if m == 9379 {
        16
    } else if m == 8162 {
        17
    } else if m == 9056 {
        18
    } else if m == 9113 {
        19
    } else if m == 8750 {
        20
    } else if m == 8218 {
        21
    } else if m == 9457 {
        22
    } else if m == 9042 {
        23
    } else if m == 8574 {
        24
    } else if m == 8946 {
        25
    } else if m == 8495 {
        26
    } else if m == 8367 {
        27
    } else if m == 8557 {
        28
    } else if m == 8943 {
        29
    } else if m == 8364 {
        30
    } else if m == 8363 {
        31
    } else if m == 8357 {
        32
    } else if m == 8117 {
        33
    } else if m == 8568 {
        34
    } else if m == 9470 {
        35
    } else if m == 9407 {
        36
    } else if m == 8918 {
        37
    } else if m == 9315 {
        38
    } else if m == 8398 {
        39
    } else if m == 8215 {
        40
    } else if m == 8403 {
        41
    } else if m == 8206 {
        42
    } else if m == 8217 {
        43
    } else if m == 8062 {
        44
    } else if m == 8637 {
        45
    } else if m == 8935 {
        46
    } else if m == 9021 {
        47
    } else if m == 8420 {
        48
    } else if m == 8997 {
        49
    } else if m == 8118 {
        50
    } else if m == 9020 {
        51
    } else if m == 8380 {
        52
    } else if m == 9024 {
        53
    } else if m == 9019 {
        54
    } else if m == 8191 {
        55
    } else if m == 9741 {
        56
    } else if m == 8547 {
        57
    } else if m == 9389 {
        58
    } else if m == 9397 {
        59
    } else if m == 7996 {
        60
    } else if m == 8503 {
        61
    } else {
        0
    }
}

proof fn lemma_marked(i: int)
    requires
        1 <= i <= 61,
    ensures
        entry_marked(mark(static_text(i))) == i,
{
    reveal(static_text);
    if i == 1 {
        reveal_strlit(":authority");
        reveal_strlit("");
        assert(mark((":authority"@, ""@)) == 9403);
    } else if i == 2 {
        reveal_strlit(":method");
        reveal_strlit("GET");
        assert(mark((":method"@, "GET"@)) == 8862);
    } else if i == 3 {
        reveal_strlit(":method");
        reveal_strlit("POST");
        assert(mark((":method"@, "POST"@)) == 8908);
    } else if i == 4 {
        reveal_strlit(":path");
        reveal_strlit("/");
        assert(mark((":path"@, "/"@)) == 8884);
    } else if i == 5 {
        reveal_strlit(":path");
        reveal_strlit("/index.html");
        assert(mark((":path"@, "/index.html"@)) == 9559);
    } else if i == 6 {
        reveal_strlit(":scheme");
        reveal_strlit("http");
        assert(mark((":scheme"@, "http"@)) == 9238);
    } else if i == 7 {
        reveal_strlit(":scheme");
        reveal_strlit("https");
        assert(mark((":scheme"@, "https"@)) == 9290);
    } else if i == 8 {
        reveal_strlit(":status");
        reveal_strlit("200");
        assert(mark((":status"@, "200"@)) == 9723);
    } else if i == 9 {
        reveal_strlit(":status");
        reveal_strlit("204");
        assert(mark((":status"@, "204"@)) == 9743);
    } else if i == 10 {
        reveal_strlit(":status");
        reveal_strlit("206");
        assert(mark((":status"@, "206"@)) == 9753);
    } else if i == 11 {
        reveal_strlit(":status");
        reveal_strlit("304");
        assert(mark((":status"@, "304"@)) == 9744);
    } else if i == 12 {
        reveal_strlit(":status");
        reveal_strlit("400");
        assert(mark((":status"@, "400"@)) == 9725);
    } else if i == 13 {
        reveal_strlit(":status");
        reveal_strlit("404");
        assert(mark((":status"@, "404"@)) == 9745);
    } else if i == 14 {
        reveal_strlit(":status");
        reveal_strlit("500");
        assert(mark((":status"@, "500"@)) == 9726);
    } else if i == 15 {
        reveal_strlit("accept-charset");
        reveal_strlit("");
        assert(mark(("accept-charset"@, ""@)) == 9121);
    } else if i == 16 {
        reveal_strlit("accept-encoding");
        reveal_strlit("gzip, deflate");
        assert(mark(("accept-encoding"@, "gzip, deflate"@)) == 9379);
    } else if i == 17 {
        reveal_strlit("accept-language");
        reveal_strlit("");
        assert(mark(("accept-language"@, ""@)) == 8162);
    } else if i == 18 {
        reveal_strlit("accept-ranges");
        reveal_strlit("");
        assert(mark(("accept-ranges"@, ""@)) == 9056);
    } else if i == 19 {
        reveal_strlit("accept");
        reveal_strlit("");
        assert(mark(("accept"@, ""@)) == 9113);
    } else if i == 20 {
        reveal_strlit("access-control-allow-origin");
        reveal_strlit("");
        assert(mark(("access-control-allow-origin"@, ""@)) == 8750);
    } else if i == 21 {
        reveal_strlit("age");
        reveal_strlit("");
        assert(mark(("age"@, ""@)) == 8218);
    } else if i == 22 {
        reveal_strlit("allow");
        reveal_strlit("");
        assert(mark(("allow"@, ""@)) == 9457);
    } else if i == 23 {
        reveal_strlit("authorization");
        reveal_strlit("");
        assert(mark(("authorization"@, ""@)) == 9042);
    } else if i == 24 {
        reveal_strlit("cache-control");
        reveal_strlit("");
        assert(mark(("cache-control"@, ""@)) == 8574);
    } else if i == 25 {
        reveal_strlit("content-disposition");
        reveal_strlit("");
        assert(mark(("content-disposition"@, ""@)) == 8946);
    } else if i == 26 {
        reveal_strlit("content-encoding");
        reveal_strlit("");
        assert(mark(("content-encoding"@, ""@)) == 8495);
    } else if i == 27 {
        reveal_strlit("content-language");
        reveal_strlit("");
        assert(mark(("content-language"@, ""@)) == 8367);
    } else if i == 28 {
        reveal_strlit("content-length");
        reveal_strlit("");
        assert(mark(("content-length"@, ""@)) == 8557);
    } else if i == 29 {
        reveal_strlit("content-location");
        reveal_strlit("");
        assert(mark(("content-location"@, ""@)) == 8943);
    } else if i == 30 {
        reveal_strlit("content-range");
        reveal_strlit("");
        assert(mark(("content-range"@, ""@)) == 8364);
    } else if i == 31 {
        reveal_strlit("content-type");
        reveal_strlit("");
        assert(mark(("content-type"@, ""@)) == 8363);
    } else if i == 32 {
        reveal_strlit("cookie");
        reveal_strlit("");
        assert(mark(("cookie"@, ""@)) == 8357);
    } else if i == 33 {
        reveal_strlit("date");
        reveal_strlit("");
        assert(mark(("date"@, ""@)) == 8117);
    } else if i == 34 {
        reveal_strlit("etag");
        reveal_strlit("");
        assert(mark(("etag"@, ""@)) == 8568);
    } else if i == 35 {
        reveal_strlit("expect");
        reveal_strlit("");
        assert(mark(("expect"@, ""@)) == 9470);
    } else if i == 36 {
        reveal_strlit("expires");
        reveal_strlit("");
        assert(mark(("expires"@, ""@)) == 9407);
    } else if i == 37 {
        reveal_strlit("from");
        reveal_strlit("");
        assert(mark(("from"@, ""@)) == 8918);
    } else if i == 38 {
        reveal_strlit("host");
        reveal_strlit("");
        assert(mark(("host"@, ""@)) == 9315);
    } else if i == 39 {
        reveal_strlit("if-match");
        reveal_strlit("");
        assert(mark(("if-match"@, ""@)) == 8398);
    } else if i == 40 {
        reveal_strlit("if-modified-since");
        reveal_strlit("");
        assert(mark(("if-modified-since"@, ""@)) == 8215);
    } else if i == 41 {
        reveal_strlit("if-none-match");
        reveal_strlit("");
        assert(mark(("if-none-match"@, ""@)) == 8403);
    } else if i == 42 {
        reveal_strlit("if-range");
        reveal_strlit("");
        assert(mark(("if-range"@, ""@)) == 8206);
    } else if i == 43 {
        reveal_strlit("if-unmodified-since");
        reveal_strlit("");
        assert(mark(("if-unmodified-since"@, ""@)) == 8217);
    } else if i == 44 {
        reveal_strlit("last-modified");
        reveal_strlit("");
        assert(mark(("last-modified"@, ""@)) == 8062);
    } else if i == 45 {
        reveal_strlit("link");
        reveal_strlit("");
        assert(mark(("link"@, ""@)) == 8637);
    } else if i == 46 {
        reveal_strlit("location");
        reveal_strlit("");
        assert(mark(("location"@, ""@)) == 8935);
    } else if i == 47 {
        reveal_strlit("max-forwards");
        reveal_strlit("");
        assert(mark(("max-forwards"@, ""@)) == 9021);
    } else if i == 48 {
        reveal_strlit("proxy-authenticate");
        reveal_strlit("");
        assert(mark(("proxy-authenticate"@, ""@)) == 8420);
    } else if i == 49 {
        reveal_strlit("proxy-authorization");
        reveal_strlit("");
        assert(mark(("proxy-authorization"@, ""@)) == 8997);
    } else if i == 50 {
        reveal_strlit("range");
        reveal_strlit("");
        assert(mark(("range"@, ""@)) == 8118);
    } else if i == 51 {
        reveal_strlit("referer");
        reveal_strlit("");
        assert(mark(("referer"@, ""@)) == 9020);
    } else if i == 52 {
        reveal_strlit("refresh");
        reveal_strlit("");
        assert(mark(("refresh"@, ""@)) == 8380);
    } else if i == 53 {
        reveal_strlit("retry-after");
        reveal_strlit("");
        assert(mark(("retry-after"@, ""@)) == 9024);
    } else if i == 54 {
        reveal_strlit("server");
        reveal_strlit("");
        assert(mark(("server"@, ""@)) == 9019);
    } else if i == 55 {
        reveal_strlit("set-cookie");
        reveal_strlit("");
        assert(mark(("set-cookie"@, ""@)) == 8191);
    } else if i == 56 {
        reveal_strlit("strict-transport-security");
        reveal_strlit("");
        assert(mark(("strict-transport-security"@, ""@)) == 9741);
    } else if i == 57 {
        reveal_strlit("transfer-encoding");
        reveal_strlit("");
        assert(mark(("transfer-encoding"@, ""@)) == 8547);
    } else if i == 58 {
        reveal_strlit("user-agent");
        reveal_strlit("");
        assert(mark(("user-agent"@, ""@)) == 9389);
    } else if i == 59 {
        reveal_strlit("vary");
        reveal_strlit("");
        assert(mark(("vary"@, ""@)) == 9397);
    } else if i == 60 {
        reveal_strlit("via");
        reveal_strlit("");
        assert(mark(("via"@, ""@)) == 7996);
    } else if i == 61 {
        reveal_strlit("www-authenticate");
        reveal_strlit("");
        assert(mark(("www-authenticate"@, ""@)) == 8503);
    }
}

/// No two static indices stand for the same name and value.
pub proof fn law_static_entries_are_distinct(i: int, j: int)
    requires
        1 <= i <= 61,
        1 <= j <= 61,
        static_text(i) == static_text(j),
    ensures
        i == j,
{
    lemma_marked(i);
    lemma_marked(j);
}

// ---------------------------------------------------------------------------
// Integers and strings
// ---------------------------------------------------------------------------

/// What is left of a first byte when the `n`-bit prefix is all that counts.
pub open spec fn low_bits(first: u8, n: u8) -> int {
    if n == 4 {
        first as int % 16
    } else if n == 5 {
        first as int % 32
    } else if n == 6 {
        first as int % 64
    } else {
        first as int % 128
    }
}

/// The prefix that says that more bytes follow: all ones.
pub open spec fn all_ones(n: u8) -> int {
    if n == 4 {
        15
    } else if n == 5 {
        31
    } else if n == 6 {
        63
    } else {
        127
    }
}

/// An integer whose prefix is not all ones is the prefix.
pub proof fn law_small_integer_is_its_prefix(first: u8, n: u8, rest: Seq<u8>)
    requires
        4 <= n <= 7,
        low_bits(first, n) < all_ones(n),
    ensures
        int_at(seq![first] + rest, n) == Ok::<(usize, int), HpackError>(
            (low_bits(first, n) as usize, 1int),
        ),
{
    let b = seq![first] + rest;
    assert(b[0] == first);
    assert(first as int % (prefix_max(n) + 1) == low_bits(first, n));
}

/// An integer whose prefix is all ones goes on, seven bits to a byte and the lowest
/// ones first, until a byte lacks the top bit: stated of one and of two such bytes.
pub proof fn law_large_integer_goes_on(first: u8, lo: u8, hi: u8, n: u8, rest: Seq<u8>)
    requires
        4 <= n <= 7,
        low_bits(first, n) == all_ones(n),
        lo < 128,
        hi < 128,
    ensures
        int_at(seq![first, lo] + rest, n) == Ok::<(usize, int), HpackError>(
            ((all_ones(n) + lo) as usize, 2int),
        ),
        int_at(seq![first, (lo + 128) as u8, hi] + rest, n) == Ok::<(usize, int), HpackError>(
            ((all_ones(n) + lo + 128 * hi) as usize, 3int),
        ),
{
    let p = all_ones(n);
    assert(first as int % (prefix_max(n) + 1) == p);
    let one = seq![first, lo] + rest;
    assert(one.skip(1)[0] == lo);
    assert((lo % 128) * group_weight(0) == lo) by (nonlinear_arith)
        requires
            lo < 128,
    ;
    assert(int_tail(one.skip(1), p, 0) == Ok::<(usize, int), HpackError>(
        ((p + lo) as usize, 1int),
    ));
    let two = seq![first, (lo + 128) as u8, hi] + rest;
    let t1 = two.skip(1);
    let t2 = t1.skip(1);
    assert(t1[0] == lo + 128);
    assert(t2[0] == hi);
    assert((t1[0] % 128) * group_weight(0) == lo);
    assert((hi % 128) * group_weight(1) == 128 * hi);
    assert(int_tail(t2, p + lo, 1) == Ok::<(usize, int), HpackError>(
        ((p + lo + 128 * hi) as usize, 1int),
    ));
    assert(int_tail(t1, p, 0) == Ok::<(usize, int), HpackError>(
        ((p + lo + 128 * hi) as usize, 2int),
    ));
}

/// A string whose first byte is below 127 is that many bytes, as they are.
pub proof fn law_short_string_reads(s: Seq<u8>, rest: Seq<u8>)
    requires
        s.len() < 127,
    ensures
        string_at(seq![s.len() as u8] + s + rest) == Ok::<(Seq<u8>, int), HpackError>(
            (s, 1int + s.len()),
        ),
{
    law_string_round_trip(s, rest);
    assert(0u8 | (s.len() as u8) == s.len() as u8) by {
        let n = s.len() as u8;
        assert(0u8 | n == n) by (bit_vector);
    }
    assert(string_bytes(s) =~= seq![s.len() as u8] + s);
}

// ---------------------------------------------------------------------------
// Literals
// ---------------------------------------------------------------------------

/// The ways to write a literal: what its first byte starts with, how many bits of
/// it are left for the index of the name, whether the field goes into the table,
/// and whether it is never to be indexed.
pub open spec fn literal_form(flags: u8, n: u8, indexed: bool, never: bool) -> bool {
    ||| flags == 0x40 && n == 6 && indexed && !never
    ||| flags == 0x00 && n == 4 && !indexed && !never
    ||| flags == 0x10 && n == 4 && !indexed && never
}

/// The bits that the form of a literal leaves to the index.
proof fn lemma_form_bits(flags: u8, n: u8, indexed: bool, never: bool, i: u8)
    requires
        literal_form(flags, n, indexed, never),
        i <= 61,
        n == 4 ==> i < 15,
    ensures
        low_bits((flags + i) as u8, n) == i,
        low_bits((flags + i) as u8, n) < all_ones(n),
        n == 6 ==> 0x40 <= flags + i < 0x80,
        n == 4 ==> flags + i < 0x20 && ((flags + i >= 0x10) == never),
{
    if flags == 0x40 {
        assert((0x40 + i) % 64 == i);
    } else if flags == 0 {
        assert(i as int % 16 == i);
    } else {
        assert((0x10 + i) % 16 == i);
    }
}

/// What a field is once it was read: the state after it, and the field.
pub open spec fn literal_read(
    d: DecoderView,
    f: FieldView,
    indexed: bool,
    never: bool,
) -> (DecoderView, FieldView) {
    (
        if indexed {
            inserted(d, f)
        } else {
            d
        },
        FieldView { sensitive: never, ..f },
    )
}

/// A literal with a new name: a byte for its form, then the name and the value. It
/// reads as that name and value; with incremental indexing it goes into the table,
/// otherwise the table stays as it is; and only the form that is never to be
/// indexed marks the field.
#[verifier::rlimit(40)]
pub proof fn law_literal_with_new_name(
    d: DecoderView,
    flags: u8,
    n: u8,
    indexed: bool,
    never: bool,
    name: Seq<u8>,
    value: Seq<u8>,
    rest: Seq<u8>,
)
    requires
        literal_form(flags, n, indexed, never),
        name.len() < 127,
        value.len() < 127,
    ensures
        ({
            let b = seq![flags] + (seq![name.len() as u8] + name) + (seq![value.len() as u8]
                + value) + rest;
            let f = FieldView { name, value, sensitive: false, unknown: false };
            let (d1, g) = literal_read(d, f, indexed, never);
            representation_at(d, b) == (
                d1,
                Ok::<(Option<FieldView>, int), HpackError>(
                    (Some(g), 3int + name.len() + value.len()),
                ),
            )
        }),
{
    reveal(representation_at);
    let nm = seq![name.len() as u8] + name;
    let vl = seq![value.len() as u8] + value;
    let b = seq![flags] + nm + vl + rest;
    law_short_string_reads(name, vl + rest);
    law_short_string_reads(value, rest);
    assert(b.skip(1) =~= nm + (vl + rest));
    assert(b.skip((1 + nm.len()) as int) =~= vl + rest);
    assert(b[0] == flags);
    assert(b =~= seq![flags] + (nm + vl + rest));
    lemma_form_bits(flags, n, indexed, never, 0);
    law_small_integer_is_its_prefix(flags, n, nm + vl + rest);
    assert(int_at(b, n) == Ok::<(usize, int), HpackError>((0usize, 1int)));
    let f = FieldView { name, value, sensitive: false, unknown: false };
    assert(literal_at(d, b, n) == (
        d,
        Ok::<(FieldView, int), HpackError>((f, 3int + name.len() + value.len())),
    ));
}

/// A literal whose name is that of a static entry: it has the name that the entry's
/// index alone reads as, and the value that follows. Where the table is known in
/// full or not makes no difference.
pub proof fn law_literal_with_static_name(
    d: DecoderView,
    flags: u8,
    n: u8,
    indexed: bool,
    never: bool,
    i: u8,
    name: Seq<char>,
    text: Seq<char>,
    value: Seq<u8>,
    rest: Seq<u8>,
)
    requires
        literal_form(flags, n, indexed, never),
        1 <= i <= 61,
        n == 4 ==> i < 15,
        reads_as(d, i, name, text),
        value.len() < 127,
    ensures
        ({
            let b = seq![(flags + i) as u8] + (seq![value.len() as u8] + value) + rest;
            let f = FieldView { name: encode_utf8(name), value, sensitive: false, unknown: false };
            let (d1, g) = literal_read(d, f, indexed, never);
            representation_at(d, b) == (
                d1,
                Ok::<(Option<FieldView>, int), HpackError>((Some(g), 2int + value.len())),
            )
        }),
{
    reveal(reads_as);
    reveal(representation_at);
    lemma_index_reads(d, i);
    let e = plain_field(static_text(i as int).0, static_text(i as int).1);
    assert(seq![plain_field(name, text)][0] == seq![e][0]);
    let vl = seq![value.len() as u8] + value;
    let first = (flags + i) as u8;
    let b = seq![first] + vl + rest;
    law_short_string_reads(value, rest);
    assert(b.skip(1) =~= vl + rest);
    assert(b =~= seq![first] + (vl + rest));
    lemma_form_bits(flags, n, indexed, never, i);
    law_small_integer_is_its_prefix(first, n, vl + rest);
    assert(low_bits(first, n) == i);
    assert(int_at(b, n) == Ok::<(usize, int), HpackError>((i as usize, 1int)));
    assert(resolved(d, i as usize) == (d, Ok::<FieldView, HpackError>(e)));
    let f = FieldView { name: encode_utf8(name), value, sensitive: false, unknown: false };
    assert(literal_at(d, b, n) == (
        d,
        Ok::<(FieldView, int), HpackError>((f, 2int + value.len())),
    ));
}

/// A static index reads as its field wherever it stands, and takes one byte.
pub proof fn law_static_index_reads_anywhere(
    d: DecoderView,
    i: u8,
    name: Seq<char>,
    text: Seq<char>,
    rest: Seq<u8>,
)
    requires
        1 <= i <= 61,
        reads_as(d, i, name, text),
    ensures
        representation_at(d, seq![(0x80 + i) as u8] + rest) == (
            d,
            Ok::<(Option<FieldView>, int), HpackError>((Some(plain_field(name, text)), 1int)),
        ),
{
    reveal(reads_as);
    reveal(representation_at);
    lemma_index_reads(d, i);
    let e = plain_field(static_text(i as int).0, static_text(i as int).1);
    assert(seq![plain_field(name, text)][0] == seq![e][0]);
    law_small_integer_is_its_prefix((0x80 + i) as u8, 7, rest);
    assert(resolved(d, i as usize) == (d, Ok::<FieldView, HpackError>(e)));
}

/// The dynamic indices read as the entries of the table, the first of them as its
/// first entry, and reading them changes nothing.
pub proof fn law_dynamic_index_reads(d: DecoderView, i: u8)
    requires
        i < 65,
        i < d.table.len(),
    ensures
        representation_at(d, seq![(0xbe + i) as u8]) == (
            d,
            Ok::<(Option<FieldView>, int), HpackError>((Some(d.table[i as int]), 1int)),
        ),
{
    reveal(representation_at);
    let b = seq![(0xbe + i) as u8];
    law_small_integer_is_its_prefix((0xbe + i) as u8, 7, Seq::empty());
    assert(b + Seq::<u8>::empty() =~= b);
    assert(entry_at(d, (62 + i) as usize) == Some(d.table[i as int]));
}

/// An index beyond the table is an error where the table is known in full, and a
/// gap that is marked and counted where it is not. Index 0 is always an error.
#[verifier::rlimit(40)]
pub proof fn law_index_beyond_the_table(d: DecoderView, i: u8, rest: Seq<u8>)
    requires
        62 <= i < 127,
        i - 62 >= d.table.len(),
    ensures
        ({
            let (d1, r) = representation_at(d, seq![(0x80 + i) as u8] + rest);
            if claims_exact(d) {
                d1 == d && r == Err::<(Option<FieldView>, int), HpackError>(
                    HpackError::BadIndex(i as usize),
                )
            } else {
                &&& r matches Ok((Some(f), used)) && f.unknown && f.value.len() == 0 && used == 1
                &&& d1.unresolved == if d.unresolved < u64::MAX {
                    d.unresolved + 1
                } else {
                    0
                }
                &&& d1.table == d.table
                &&& d1.exact == d.exact
            }
        }),
        representation_at(d, seq![0x80u8] + rest).1 == Err::<(Option<FieldView>, int), HpackError>(
            HpackError::ZeroIndex,
        ),
{
    reveal(representation_at);
    law_small_integer_is_its_prefix((0x80 + i) as u8, 7, rest);
    law_small_integer_is_its_prefix(0x80, 7, rest);
}

/// A size update sets the capacity to what it says, which is then an observed one,
/// and yields no field.
pub proof fn law_size_update_reads(d: DecoderView, n: u8, lo: u8, hi: u8, rest: Seq<u8>)
    requires
        n < 31,
        lo < 128,
        hi < 128,
    ensures
        ({
            let (d1, r) = representation_at(d, seq![(0x20 + n) as u8] + rest);
            &&& r == Ok::<(Option<FieldView>, int), HpackError>((None, 1int))
            &&& d1.max_size == n
            &&& d1.capacity_observed
        }),
        ({
            let (d1, r) = representation_at(d, seq![0x3fu8, (lo + 128) as u8, hi] + rest);
            &&& r == Ok::<(Option<FieldView>, int), HpackError>((None, 3int))
            &&& d1.max_size == 31 + lo + 128 * hi
            &&& d1.capacity_observed
        }),
{
    reveal(representation_at);
    law_small_integer_is_its_prefix((0x20 + n) as u8, 5, rest);
    law_large_integer_goes_on(0x3f, lo, hi, 5, rest);
}

} // verus!
