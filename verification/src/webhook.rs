//! Webhook authentication.
//!
//! Todoist delivers events authenticated with an HMAC-SHA256 signature
//! over the raw body (`X-Todoist-Hmac-SHA256`, base64, keyed by the app's
//! client secret). An empty secret rejects every delivery.

use base64::Engine;
use hmac::{Hmac, Mac};
use sha2::Sha256;
use vstd::prelude::*;
use vstd::string::StringSliceAdditionalSpecFns;

verus! {

/// What the `base64` crate's `STANDARD` engine (padded standard alphabet)
/// decodes these bytes to, or None where `decode` returns an error.
pub uninterp spec fn base64_standard_decode(input: Seq<u8>) -> Option<Seq<u8>>;

/// The 32-byte HMAC-SHA256 tag of `message` under `key`, as the `hmac`
/// crate computes it with `sha2::Sha256`.
pub uninterp spec fn hmac_sha256(key: Seq<u8>, message: Seq<u8>) -> Seq<u8>;

/// `base64::engine::general_purpose::STANDARD.decode`: the decoded bytes
/// exactly when decoding succeeds, None on a decode error.
#[verifier::external_body]
fn base64_decode(input: &str) -> (r: Option<Vec<u8>>)
    ensures
        match r {
            Some(v) => base64_standard_decode(input.spec_bytes()) == Some(v@),
            None => base64_standard_decode(input.spec_bytes()) is None,
        },
{
    base64::engine::general_purpose::STANDARD.decode(input).ok()
}

/// One HMAC check with the `hmac` crate: `Hmac::<Sha256>::new_from_slice`
/// (which accepts keys of any length), `update` with the message, then
/// `verify_slice`, which succeeds exactly when the tag has the full
/// 32-byte length and equals the computed HMAC. The contract claims
/// exactly that: true iff `tag` is `hmac_sha256(key, message)`.
#[verifier::external_body]
fn hmac_sha256_matches(key: &[u8], message: &[u8], tag: &[u8]) -> (r: bool)
    ensures
        r == (tag@ == hmac_sha256(key@, message@)),
{
    match Hmac::<Sha256>::new_from_slice(key) {
        Ok(mut mac) => {
            mac.update(message);
            mac.verify_slice(tag).is_ok()
        },
        Err(_) => false,
    }
}

/// A non-empty string has a non-empty UTF-8 encoding.
proof fn lemma_encode_nonempty(s: Seq<char>)
    requires
        s.len() > 0,
    ensures
        vstd::utf8::encode_utf8(s).len() > 0,
{
    assert(vstd::utf8::encode_utf8(s) == vstd::utf8::encode_scalar(s[0] as u32) + vstd::utf8::encode_utf8(s.drop_first()));
}

/// A delivery is authentic: the secret is set, the signature header
/// decodes as base64, and it is the HMAC-SHA256 of the body under the
/// secret.
pub open spec fn authentic(secret: Seq<u8>, body: Seq<u8>, decoded: Option<Seq<u8>>) -> bool {
    secret.len() > 0 && match decoded {
        Some(sig) => sig == hmac_sha256(secret, body),
        None => false,
    }
}

/// The check once the signature header has been base64-decoded (None
/// when it did not decode).
pub fn verify_decoded(secret: &str, body: &[u8], decoded: Option<Vec<u8>>) -> (r: bool)
    ensures
        r == authentic(secret.spec_bytes(), body@, match decoded {
            Some(v) => Some(v@),
            None => None,
        }),
{
    if secret.is_empty() {
        return false;
    }
    proof {
        lemma_encode_nonempty(secret@);
    }
    match decoded {
        None => false,
        Some(signature) => hmac_sha256_matches(secret.as_bytes(), body, signature.as_slice()),
    }
}

/// Verify a Todoist webhook signature (base64 in `signature_b64`) over
/// the raw body, keyed by the client secret.
pub fn verify(secret: &str, body: &[u8], signature_b64: &str) -> (r: bool)
    ensures
        r == authentic(secret.spec_bytes(), body@, base64_standard_decode(signature_b64.spec_bytes())),
{
    if secret.is_empty() {
        return false;
    }
    let decoded = base64_decode(signature_b64);
    verify_decoded(secret, body, decoded)
}

/// The HTTP status a webhook delivery gets: 200 when authentic, 403
/// otherwise.
pub fn webhook_status(secret: &str, body: &[u8], signature_b64: &str) -> (r: u16)
    ensures
        r == if authentic(secret.spec_bytes(), body@, base64_standard_decode(signature_b64.spec_bytes())) {
            200u16
        } else {
            403u16
        },
{
    if verify(secret, body, signature_b64) {
        200
    } else {
        403
    }
}

} // verus!
