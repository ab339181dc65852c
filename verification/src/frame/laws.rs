//! Laws of the frame layer: what is a header block fragment, and what a SETTINGS
//! frame advertises.
use vstd::prelude::*;

use crate::bytes::{be16_at, be16_bytes, be32_at, be32_bytes};
use crate::frame::{
    advertised_table_size, flags, fragment_of, fragment_prefix, frame_type_name, last_table_size,
    plausible, FrameHeader, FrameType,
};

verus! {

/// Padding and what stands before a fragment are no part of it. Put the pad length
/// before it if the frame is padded, then the five bytes of priority fields or the
/// four of a promised stream id where the frame has them, and padding behind it: the
/// fragment is what was put between them.
pub proof fn law_fragment_is_what_was_put_in(
    h: FrameHeader,
    fields: Seq<u8>,
    fragment: Seq<u8>,
    padding: Seq<u8>,
)
    requires
        h.typ == 1 || h.typ == 5,
        padding.len() < 256,
        h.flags & 0x08 == 0 ==> padding.len() == 0,
        h.typ == 1 && h.flags & 0x20 != 0 ==> fields.len() == 5,
        h.typ == 1 && h.flags & 0x20 == 0 ==> fields.len() == 0,
        h.typ == 5 ==> fields.len() == 4,
    ensures
        fragment_of(
            h,
            (if h.flags & 0x08 != 0 {
                seq![padding.len() as u8]
            } else {
                Seq::empty()
            }) + fields + fragment + padding,
        ) == Some(fragment),
{
    let lead = if h.flags & 0x08 != 0 {
        seq![padding.len() as u8]
    } else {
        Seq::empty()
    };
    let payload = lead + fields + fragment + padding;
    let start = lead.len() + fields.len();
    assert(h.flags & 0x08 != 0 ==> payload[0] == padding.len());
    assert(fragment_prefix(h) == fields.len());
    assert(payload.subrange(start as int, payload.len() - padding.len()) =~= fragment);
}

/// A payload that is too short for its pad length has no fragment.
pub proof fn law_padding_has_to_fit(h: FrameHeader, payload: Seq<u8>)
    requires
        h.flags & 0x08 != 0,
        payload.len() > 0,
        payload[0] + fragment_prefix(h) + 1 > payload.len(),
    ensures
        fragment_of(h, payload) is None,
{
}

proof fn lemma_settings_front(a: Seq<u8>, b: Seq<u8>, n: nat)
    requires
        6 * n <= a.len(),
    ensures
        last_table_size(a + b, n) == last_table_size(a, n),
    decreases n,
{
    if n > 0 {
        let p = a + b;
        let k = 6 * (n - 1);
        assert(p[k] == a[k] && p[k + 1] == a[k + 1]);
        assert(p[k + 2] == a[k + 2] && p[k + 3] == a[k + 3]);
        assert(p[k + 4] == a[k + 4] && p[k + 5] == a[k + 5]);
        lemma_settings_front(a, b, (n - 1) as nat);
    }
}

/// One more setting at the end decides the table size if it is setting 1, the header
/// table size, and changes nothing if it is any other. What does not fill a setting
/// is ignored. No setting, no size; and an acknowledgement advertises nothing.
pub proof fn law_last_table_size_counts(
    h: FrameHeader,
    settings: Seq<u8>,
    id: u16,
    value: u32,
    tail: Seq<u8>,
)
    requires
        settings.len() % 6 == 0,
        tail.len() < 6,
        h.typ == 4,
        h.flags & 0x01 == 0,
    ensures
        advertised_table_size(h, settings + be16_bytes(id) + be32_bytes(value) + tail) == (if id
            == 1 {
            Some(value)
        } else {
            advertised_table_size(h, settings)
        }),
        advertised_table_size(h, tail) is None,
        forall|other: FrameHeader|
            other.typ != 4 || other.flags & 0x01 != 0 ==> #[trigger] advertised_table_size(
                other,
                settings,
            ) is None,
{
    let last = be16_bytes(id) + be32_bytes(value) + tail;
    let p = settings + be16_bytes(id) + be32_bytes(value) + tail;
    assert(p =~= settings + last);
    let n = settings.len() / 6;
    assert(p.len() / 6 == n + 1) by {
        assert(p.len() == 6 * n + 6 + tail.len());
    }
    assert(tail.len() / 6 == 0);
    let k = 6 * n as int;
    let v = be32_bytes(value);
    assert(p[k] == be16_bytes(id)[0] && p[k + 1] == be16_bytes(id)[1]);
    assert(p[k + 2] == v[0] && p[k + 3] == v[1] && p[k + 4] == v[2] && p[k + 5] == v[3]);
    assert(be16_at(p, k) == id);
    assert(be32_at(p, k + 2) == value);
    lemma_settings_front(settings, last, n);
}

/// The frame types under their names, and everything else under none of them.
pub proof fn law_frame_types_have_their_names(t: u8)
    ensures
        frame_type_name(FrameType::DATA) == "DATA"@ && FrameType::DATA == 0,
        frame_type_name(FrameType::HEADERS) == "HEADERS"@ && FrameType::HEADERS == 1,
        frame_type_name(2) == "PRIORITY"@,
        frame_type_name(3) == "RST_STREAM"@,
        frame_type_name(FrameType::SETTINGS) == "SETTINGS"@ && FrameType::SETTINGS == 4,
        frame_type_name(FrameType::PUSH_PROMISE) == "PUSH_PROMISE"@ && FrameType::PUSH_PROMISE
            == 5,
        frame_type_name(6) == "PING"@,
        frame_type_name(7) == "GOAWAY"@,
        frame_type_name(8) == "WINDOW_UPDATE"@,
        frame_type_name(FrameType::CONTINUATION) == "CONTINUATION"@ && FrameType::CONTINUATION
            == 9,
        t > 9 ==> frame_type_name(t) == "UNKNOWN"@,
{
}

/// A frame that its type allows is taken for one. Streams have numbers other than 0,
/// the connection has 0, and frames of fixed size have that size.
pub proof fn law_proper_frames_are_plausible(h: FrameHeader)
    ensures
        ({
            let of_stream = h.stream_id != 0;
            let small = h.len <= 1048576;
            &&& h.typ == 0 || h.typ == 1 || h.typ == 9 ==> (plausible(h) <==> of_stream && small)
            &&& h.typ == 2 ==> (plausible(h) <==> of_stream && h.len == 5)
            &&& h.typ == 3 ==> (plausible(h) <==> of_stream && h.len == 4)
            &&& h.typ == 4 ==> (plausible(h) <==> !of_stream && h.len % 6 == 0 && small)
            &&& h.typ == 5 ==> (plausible(h) <==> of_stream && h.len >= 4 && small)
            &&& h.typ == 6 ==> (plausible(h) <==> !of_stream && h.len == 8)
            &&& h.typ == 7 ==> (plausible(h) <==> !of_stream && h.len >= 8 && small)
            &&& h.typ == 8 ==> (plausible(h) <==> h.len == 4)
            &&& 9 < h.typ <= 12 ==> (plausible(h) <==> small)
            &&& h.typ > 12 ==> !plausible(h)
        }),
{
}

} // verus!
