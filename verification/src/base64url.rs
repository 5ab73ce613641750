//! Base64 text in the URL-safe alphabet, without padding.
use base64::engine::general_purpose::URL_SAFE_NO_PAD;
use base64::Engine;
use vstd::prelude::*;

verus! {

/// The text that `base64`'s `URL_SAFE_NO_PAD` engine encodes `data` to.
pub uninterp spec fn encoded(data: Seq<u8>) -> Seq<char>;

/// What `base64`'s `URL_SAFE_NO_PAD` engine decodes `text` to: the bytes, or the error's text.
pub uninterp spec fn decoded(text: Seq<char>) -> Result<Seq<u8>, Seq<char>>;

/// A character of the URL-safe alphabet.
pub open spec fn in_alphabet(c: char) -> bool {
    'A' <= c <= 'Z' || 'a' <= c <= 'z' || '0' <= c <= '9' || c == '-' || c == '_'
}

/// `base64::Engine::encode` of `URL_SAFE_NO_PAD`: the encoded text is made of the alphabet's
/// characters, one for every six bits, and decoding it gives the bytes back.
#[verifier::external_body]
pub(crate) fn encode(data: &[u8]) -> (r: String)
    ensures
        r@ == encoded(data@),
        match decoded(r@) {
            Ok(d) => d == data@,
            Err(_) => false,
        },
        forall|i: int| 0 <= i < r@.len() ==> in_alphabet(#[trigger] r@[i]),
        r@.len() == (data@.len() * 4 + 2) / 3,
{
    URL_SAFE_NO_PAD.encode(data)
}

/// `base64::Engine::decode` of `URL_SAFE_NO_PAD`: the decoded bytes, or the error as text.
#[verifier::external_body]
pub(crate) fn decode(text: &str) -> (r: Result<Vec<u8>, String>)
    ensures
        match (r, decoded(text@)) {
            (Ok(a), Ok(b)) => a@ == b,
            (Err(a), Err(b)) => a@ == b,
            _ => false,
        },
{
    match URL_SAFE_NO_PAD.decode(text) {
        Ok(data) => Ok(data),
        Err(e) => Err(e.to_string()),
    }
}

} // verus!
