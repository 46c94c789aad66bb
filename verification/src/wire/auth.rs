//! HMAC-SHA256 tags of authenticated frames.

use super::DecodeError;
use hmac::{Hmac, Mac};
use sha2::Sha256;
use vstd::prelude::*;

verus! {

/// Bytes of a tag.
pub const AUTH_TAG_LEN: usize = 32;

/// A cluster's shared secret.
#[derive(Clone, Copy, Debug, PartialEq, Eq)]
pub struct HmacKey(pub [u8; 32]);

impl HmacKey {
    pub fn new(bytes: [u8; 32]) -> (key: HmacKey)
        ensures
            key.0@ == bytes@,
    {
        HmacKey(bytes)
    }
}

/// The HMAC-SHA256 of `payload` under `key`.
pub uninterp spec fn hmac_sha256(key: Seq<u8>, payload: Seq<u8>) -> Seq<u8>;

/// Computes a tag with `hmac::Hmac::<sha2::Sha256>`: `new_from_slice`, which
/// takes a key of any length, then `update` and `finalize`. Claims that the
/// result depends on the key and the payload alone, and names it
/// [`hmac_sha256`].
#[verifier::external_body]
pub(crate) fn mac_tag(key: &[u8; 32], payload: &[u8]) -> (tag: [u8; 32])
    ensures
        tag@ == hmac_sha256(key@, payload@),
{
    let mut mac = Hmac::<Sha256>::new_from_slice(key).expect("any key length is accepted");
    mac.update(payload);
    mac.finalize().into_bytes().into()
}

/// Checks a tag with `verify_slice` of `hmac::Hmac::<sha2::Sha256>`. Claims that
/// it accepts the bytes that `finalize` would give, all 32 of them, and nothing
/// else. That the comparison takes the same time for every tag is not stated.
#[verifier::external_body]
pub(crate) fn mac_matches(key: &[u8; 32], payload: &[u8], tag: &[u8]) -> (matches: bool)
    ensures
        matches == (tag@ == hmac_sha256(key@, payload@)),
{
    let mut mac = Hmac::<Sha256>::new_from_slice(key).expect("any key length is accepted");
    mac.update(payload);
    mac.verify_slice(tag).is_ok()
}

/// The tag of a payload.
pub fn sign(key: &HmacKey, payload: &[u8]) -> (tag: [u8; AUTH_TAG_LEN])
    ensures
        tag@ == hmac_sha256(key.0@, payload@),
{
    mac_tag(&key.0, payload)
}

/// Accepts exactly the tag that [`sign`] gives the payload.
pub fn verify(key: &HmacKey, payload: &[u8], tag: &[u8]) -> (outcome: Result<(), DecodeError>)
    ensures
        outcome == if tag@ == hmac_sha256(key.0@, payload@) {
            Ok::<(), DecodeError>(())
        } else {
            Err(DecodeError::AuthenticationFailed)
        },
{
    if mac_matches(&key.0, payload, tag) {
        Ok(())
    } else {
        Err(DecodeError::AuthenticationFailed)
    }
}

} // verus!
