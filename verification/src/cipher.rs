//! AES-256-GCM with an empty associated data, as the `aes-gcm` crate computes
//! it. Nothing in this file is proved: it states what the library takes from
//! the cipher.

use aes_gcm::aead::generic_array::GenericArray;
use aes_gcm::aead::{Aead, NewAead};
use aes_gcm::Aes256Gcm;
use vstd::prelude::*;

verus! {

/// The length of an AES-256 key, in bytes.
pub const KEY_BYTES: usize = 32;

/// The length of the nonce, in bytes.
pub const NONCE_BYTES: usize = 12;

/// The length of the authentication tag that follows the ciphertext.
pub const TAG_BYTES: usize = 16;

/// The longest message that is handed to the cipher, in bytes: the 32-bit
/// block counter of the cipher runs out 17 bytes below 2^36.
pub const MAX_MESSAGE_BYTES: u64 = 0xF_FFFF_FFEF;

/// The longest sealed message that is handed to the cipher, in bytes: a
/// longest message and its tag.
pub const MAX_SEALED_BYTES: u64 = 0xF_FFFF_FFFF;

/// What `Aes256Gcm::encrypt` returns for a 32-byte key, a 12-byte nonce and a
/// message: the ciphertext followed by the tag, or nothing where it refuses.
pub uninterp spec fn gcm_seal(key: Seq<u8>, nonce: Seq<u8>, message: Seq<u8>) -> Option<Seq<u8>>;

/// What `Aes256Gcm::decrypt` returns for a 32-byte key, a 12-byte nonce and a
/// sealed message: the message, or nothing where the tag does not match.
pub uninterp spec fn gcm_open(key: Seq<u8>, nonce: Seq<u8>, sealed: Seq<u8>) -> Option<Seq<u8>>;

/// `other` is as long as `sealed`, holds the same ciphertext, and differs
/// from it in the tag.
pub open spec fn differs_in_tag(sealed: Seq<u8>, other: Seq<u8>) -> bool {
    &&& sealed.len() >= TAG_BYTES
    &&& other.len() == sealed.len()
    &&& other.take(other.len() - TAG_BYTES) == sealed.take(sealed.len() - TAG_BYTES)
    &&& other != sealed
}

/// `Aes256Gcm::new` and `Aead::encrypt`, with no associated data.
///
/// Claimed of the cipher, not proved: it seals every message of at most
/// `MAX_MESSAGE_BYTES` bytes; what it returns depends on key, nonce and
/// message alone and is 16 bytes longer than the message; and decryption
/// under the same key and nonce gives the message back.
#[verifier::external_body]
#[allow(deprecated)]
pub(crate) fn seal(key: &[u8], nonce: &[u8], message: &[u8]) -> (sealed: Option<Vec<u8>>)
    requires
        key@.len() == KEY_BYTES,
        nonce@.len() == NONCE_BYTES,
        message@.len() <= MAX_MESSAGE_BYTES,
    ensures
        sealed is Some,
        sealed matches Some(c) ==> gcm_seal(key@, nonce@, message@) == Some(c@),
        sealed matches Some(c) ==> c@.len() == message@.len() + TAG_BYTES,
        sealed matches Some(c) ==> gcm_open(key@, nonce@, c@) == Some(message@),
{
    let cipher = Aes256Gcm::new(GenericArray::from_slice(key));
    cipher.encrypt(GenericArray::from_slice(nonce), message).ok()
}

/// `Aes256Gcm::new` and `Aead::decrypt`, with no associated data.
///
/// Claimed of the cipher, not proved: what it returns depends on key, nonce
/// and sealed message alone; and it refuses an input that holds the
/// ciphertext of a sealed message under another tag, because the tag it
/// accepts is computed from key, nonce and ciphertext as sealing computes it.
#[verifier::external_body]
#[allow(deprecated)]
pub(crate) fn open(key: &[u8], nonce: &[u8], sealed: &[u8]) -> (message: Option<Vec<u8>>)
    requires
        key@.len() == KEY_BYTES,
        nonce@.len() == NONCE_BYTES,
        sealed@.len() <= MAX_SEALED_BYTES,
    ensures
        message is None ==> gcm_open(key@, nonce@, sealed@) is None,
        message matches Some(m) ==> gcm_open(key@, nonce@, sealed@) == Some(m@),
        forall|m: Seq<u8>|
            (#[trigger] gcm_seal(key@, nonce@, m)) matches Some(c) && differs_in_tag(c, sealed@)
                ==> message is None,
{
    let cipher = Aes256Gcm::new(GenericArray::from_slice(key));
    cipher.decrypt(GenericArray::from_slice(nonce), sealed).ok()
}

} // verus!
