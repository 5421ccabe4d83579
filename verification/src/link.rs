use vstd::prelude::*;

use base64::prelude::{BASE64_STANDARD, BASE64_URL_SAFE_NO_PAD};
use base64::Engine;

verus! {

/// What `BASE64_URL_SAFE_NO_PAD.encode` makes of `bytes`.
pub uninterp spec fn base64_url_encoding(bytes: Seq<u8>) -> Seq<char>;

/// What `BASE64_URL_SAFE_NO_PAD.decode` makes of the text `text`: `None` where it is no
/// valid unpadded URL-safe Base64.
pub uninterp spec fn base64_url_decoding(text: Seq<char>) -> Option<Seq<u8>>;

/// What `BASE64_STANDARD.decode` makes of the text `text`: `None` where it is no valid
/// padded standard Base64.
pub uninterp spec fn base64_standard_decoding(text: Seq<char>) -> Option<Seq<u8>>;

/// Calls `base64::Engine::decode` on the `STANDARD` engine, with its error turned into
/// `None`. Claims that the result is the decoding's named value.
#[verifier::external_body]
fn decode_standard(text: &str) -> (bytes: Option<Vec<u8>>)
    ensures
        bytes is None <==> base64_standard_decoding(text@) is None,
        bytes matches Some(b) ==> base64_standard_decoding(text@) == Some(b@),
{
    BASE64_STANDARD.decode(text).ok()
}

/// Why a text carries no secret.
pub enum SecretError {
    /// The text is no padded standard Base64.
    NotBase64,
    /// The text decodes to other than eight bytes.
    WrongLength,
}

/// The eight-byte secret that `text` carries in padded standard Base64.
pub fn decode_secret(text: &str) -> (secret: Result<[u8; 8], SecretError>)
    ensures
        secret matches Err(SecretError::NotBase64) <==> base64_standard_decoding(text@) is None,
        secret matches Err(SecretError::WrongLength) <==> (base64_standard_decoding(text@) matches Some(
            b,
        ) && b.len() != 8),
        secret matches Ok(s) ==> base64_standard_decoding(text@) == Some(s@),
{
    match decode_standard(text) {
        None => Err(SecretError::NotBase64),
        Some(bytes) => {
            if bytes.len() != 8 {
                Err(SecretError::WrongLength)
            } else {
                let s = [
                    bytes[0],
                    bytes[1],
                    bytes[2],
                    bytes[3],
                    bytes[4],
                    bytes[5],
                    bytes[6],
                    bytes[7],
                ];
                proof {
                    assert(s@ =~= bytes@);
                }
                Ok(s)
            }
        },
    }
}

/// Calls `base64::Engine::encode` on the `URL_SAFE_NO_PAD` engine. Claims that the result is
/// the encoding's named value and that the engine's `decode` gives `bytes` back from it (it
/// writes no padding and zero trailing bits, which `decode` on that engine accepts).
/// `encode` panics where the encoded length overflows, which `requires` leaves out.
#[verifier::external_body]
fn encode_url_safe(bytes: &[u8]) -> (text: String)
    requires
        bytes@.len() <= isize::MAX / 2,
    ensures
        text@ == base64_url_encoding(bytes@),
        base64_url_decoding(text@) == Some(bytes@),
{
    BASE64_URL_SAFE_NO_PAD.encode(bytes)
}

/// Calls `base64::Engine::decode` on the `URL_SAFE_NO_PAD` engine, with its error turned into
/// `None`. Claims that the result is the decoding's named value.
#[verifier::external_body]
fn decode_url_safe(text: &str) -> (bytes: Option<Vec<u8>>)
    ensures
        bytes is None <==> base64_url_decoding(text@) is None,
        bytes matches Some(b) ==> base64_url_decoding(text@) == Some(b@),
{
    BASE64_URL_SAFE_NO_PAD.decode(text).ok()
}

/// A link to the resume under `base_url` that carries the encoded state `state_bytes` as
/// its query, in URL-safe Base64 without padding.
pub fn to_link(base_url: &str, state_bytes: &[u8]) -> (link: String)
    requires
        state_bytes@.len() <= isize::MAX / 2,
    ensures
        link@ == base_url@ + seq!['?'] + base64_url_encoding(state_bytes@),
        base64_url_decoding(link@.skip(base_url@.len() + 1int)) == Some(state_bytes@),
{
    let query = encode_url_safe(state_bytes);
    let mut link = String::from_str(base_url);
    link.append("?");
    link.append(query.as_str());
    proof {
        reveal_strlit("?");
        assert(link@.skip(base_url@.len() + 1int) =~= query@);
    }
    link
}

/// The encoded state that a query carries, or `None` where the query is no URL-safe Base64
/// without padding.
pub fn decode_query(query: &str) -> (state_bytes: Option<Vec<u8>>)
    ensures
        state_bytes is None <==> base64_url_decoding(query@) is None,
        state_bytes matches Some(b) ==> base64_url_decoding(query@) == Some(b@),
{
    decode_url_safe(query)
}

} // verus!
