//! The Huffman code of RFC 7541 Appendix B, as `httlib_huffman` decodes it.
use vstd::prelude::*;

verus! {

/// The error that `httlib_huffman::decode` reports. Opaque: only its presence
/// matters here.
#[verifier::external_type_specification]
#[verifier::external_body]
pub struct ExDecoderError(httlib_huffman::DecoderError);

/// What `httlib_huffman::decode` makes of `raw` when it reads three bits at a
/// time: the decoded bytes, or nothing where it reports an error.
pub uninterp spec fn huffman_decoded(raw: Seq<u8>) -> Option<Seq<u8>>;

/// Calls `httlib_huffman::decode` at three bits per step, appending to an
/// empty vector.
///
/// Trusted: whether it succeeds, and with which bytes, depends on `raw` alone.
/// Which bytes these are is not said here.
#[verifier::external_body]
pub(crate) fn huffman_decode(raw: &[u8]) -> (r: Result<Vec<u8>, httlib_huffman::DecoderError>)
    ensures
        match r {
            Ok(v) => huffman_decoded(raw@) == Some(v@),
            Err(_) => huffman_decoded(raw@) is None,
        },
{
    let mut out = Vec::new();
    httlib_huffman::decode(raw, &mut out, httlib_huffman::DecoderSpeed::ThreeBits)?;
    Ok(out)
}

} // verus!
