//! Binary values as text: base64 with the URL-safe alphabet and no padding.
use vstd::prelude::*;

verus! {

/// The bytes a text denotes in unpadded URL-safe base64, or `None` where the
/// text is not such an encoding.
pub uninterp spec fn url_safe_decoded(text: Seq<char>) -> Option<Seq<u8>>;

/// The unpadded URL-safe base64 text of some bytes.
pub uninterp spec fn url_safe_encoded(bytes: Seq<u8>) -> Seq<char>;

/// Relies on base64's `URL_SAFE_NO_PAD` engine `decode`: it fails on text
/// outside the URL-safe alphabet and on padding, and otherwise its result
/// depends on the text alone.
#[verifier::external_body]
pub(crate) fn decode_url_safe(text: &str) -> (r: Option<Vec<u8>>)
    ensures
        r is Some <==> url_safe_decoded(text@) is Some,
        r matches Some(bytes) ==> url_safe_decoded(text@) == Some(bytes@),
{
    match base64::Engine::decode(&base64::engine::general_purpose::URL_SAFE_NO_PAD, text) {
        Ok(bytes) => Some(bytes),
        Err(_) => None,
    }
}

/// Relies on base64's `URL_SAFE_NO_PAD` engine `encode`: its result depends
/// on the bytes alone, and the same engine's `decode` gives the bytes back.
#[verifier::external_body]
pub(crate) fn encode_url_safe(bytes: &Vec<u8>) -> (r: String)
    ensures
        r@ == url_safe_encoded(bytes@),
        url_safe_decoded(r@) == Some(bytes@),
{
    base64::Engine::encode(&base64::engine::general_purpose::URL_SAFE_NO_PAD, bytes)
}

} // verus!
