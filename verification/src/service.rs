//! The three operations on request bodies: encrypt and decrypt a JSON
//! object's fields, and sign a payload.

use crate::error::CipherError;
use crate::json::{json_object_fields, json_object_text, parse_object, render_object};
use crate::key::Setting;
use crate::transform::{
    all_sealings, decrypt_fields_spec, decrypt_json, encrypt_fields, encrypt_fields_spec,
    fits_cipher, is_tampered, views, Field, FieldView,
};
use std::collections::hash_map::DefaultHasher;
use std::hash::{Hash, Hasher};
use vstd::prelude::*;
use vstd::std_specs::hash::DefaultHasherAdditionalSpecFns;

verus! {

/// The document that `encrypt_json` writes for these fields.
pub open spec fn encrypt_json_spec(key: Seq<u8>, nonce: Seq<u8>, fields: Seq<FieldView>) -> Result<
    Seq<char>,
    CipherError,
> {
    match encrypt_fields_spec(key, nonce, fields) {
        Ok(sealed) => Ok(json_object_text(sealed)),
        Err(e) => Err(e),
    }
}

/// The document that answers a request to encrypt `payload`: `payload` must
/// be a JSON object; every field's value is sealed, and the object with the
/// envelopes as its values is written out.
pub open spec fn encrypt_spec(key: Seq<u8>, nonce: Seq<u8>, payload: Seq<char>) -> Result<
    Seq<char>,
    CipherError,
> {
    match json_object_fields(payload) {
        None => Err(CipherError::InputShape),
        Some(fields) => encrypt_json_spec(key, nonce, fields),
    }
}

/// The document that answers a request to decrypt `payload`: `payload` must
/// be a JSON object whose values are strings that hold envelopes; every value
/// is opened, and the object with the opened texts as its values is written
/// out.
pub open spec fn decrypt_spec(key: Seq<u8>, nonce: Seq<u8>, payload: Seq<char>) -> Result<
    Seq<char>,
    CipherError,
> {
    match json_object_fields(payload) {
        None => Err(CipherError::InputShape),
        Some(fields) => match decrypt_fields_spec(key, nonce, fields) {
            Ok(opened) => Ok(json_object_text(opened)),
            Err(e) => Err(e),
        },
    }
}

/// What `r` holds, as the contracts speak of it.
pub open spec fn text_result(r: Result<String, CipherError>) -> Result<Seq<char>, CipherError> {
    match r {
        Ok(text) => Ok(text@),
        Err(e) => Err(e),
    }
}

/// Seals every field of an object and writes the object out as JSON. Only a
/// value that is too long for the cipher is refused. The fields that are
/// written keep their names, and every envelope holds 16 bytes more than the
/// value it stands for.
pub fn encrypt_json(setting: &Setting, fields: &Vec<Field>) -> (r: Result<String, CipherError>)
    ensures
        r is Ok <==> forall|i: int|
            0 <= i < fields@.len() ==> fits_cipher(#[trigger] fields@[i].value@),
        text_result(r) == encrypt_json_spec(
            setting.key_bytes(),
            setting.nonce_bytes(),
            views(fields@),
        ),
        r is Ok ==> all_sealings(
            views(fields@),
            encrypt_fields_spec(setting.key_bytes(), setting.nonce_bytes(), views(fields@))->Ok_0,
        ),
{
    match encrypt_fields(setting, fields) {
        Ok(sealed) => Ok(render_object(&sealed)),
        Err(e) => Err(e),
    }
}

/// Answers a request to encrypt: the body must be a JSON object.
pub fn encrypt(payload: &str, setting: &Setting) -> (r: Result<String, CipherError>)
    ensures
        text_result(r) == encrypt_spec(setting.key_bytes(), setting.nonce_bytes(), payload@),
        r is Ok ==> all_sealings(
            json_object_fields(payload@)->0,
            encrypt_fields_spec(
                setting.key_bytes(),
                setting.nonce_bytes(),
                json_object_fields(payload@)->0,
            )->Ok_0,
        ),
{
    match parse_object(payload) {
        None => Err(CipherError::InputShape),
        Some(fields) => encrypt_json(setting, &fields),
    }
}

/// Answers a request to decrypt: the body must be a JSON object whose values
/// are strings that hold envelopes. Nothing is answered where one value is a
/// sealed message whose tag was changed.
pub fn decrypt(payload: &str, setting: &Setting) -> (r: Result<String, CipherError>)
    ensures
        text_result(r) == decrypt_spec(setting.key_bytes(), setting.nonce_bytes(), payload@),
        json_object_fields(payload@) matches Some(fields) ==> forall|i: int|
            0 <= i < fields.len() && is_tampered(
                setting.key_bytes(),
                setting.nonce_bytes(),
                (#[trigger] fields[i]).value,
            ) ==> r is Err,
{
    match parse_object(payload) {
        None => Err(CipherError::InputShape),
        Some(fields) => match decrypt_json(setting, &fields) {
            Ok(opened) => Ok(render_object(&opened)),
            Err(e) => Err(e),
        },
    }
}

/// Encrypting is a function of key, nonce and document: two answers to the
/// same request under the same setting are the same.
pub proof fn lemma_encrypt_deterministic(
    key: Seq<u8>,
    nonce: Seq<u8>,
    payload: Seq<char>,
    first: Result<String, CipherError>,
    second: Result<String, CipherError>,
)
    requires
        text_result(first) == encrypt_spec(key, nonce, payload),
        text_result(second) == encrypt_spec(key, nonce, payload),
    ensures
        text_result(first) == text_result(second),
        first is Ok <==> second is Ok,
        first matches Ok(a) ==> second matches Ok(b) && a@ == b@,
        first matches Err(a) ==> second matches Err(b) && a == b,
{
}

/// A payload with its signature.
#[derive(Clone, Debug, PartialEq, Eq)]
pub struct SignedResponse {
    /// The hash of the payload.
    pub signature: u64,
    /// The payload, as it came.
    pub data: String,
}

/// The response that carries `data` under `signature`.
pub fn signed_response(signature: u64, data: String) -> (response: SignedResponse)
    ensures
        response.signature == signature,
        response.data@ == data@,
{
    SignedResponse { signature, data }
}

/// What a hasher has been fed once `<str as Hash>::hash` has fed it `text`,
/// where `before` is what it had been fed until then.
pub uninterp spec fn fed_text(before: Seq<Seq<u8>>, text: Seq<char>) -> Seq<Seq<u8>>;

/// The signature of a payload: what a new `DefaultHasher` finishes with once
/// it has been fed the payload.
pub open spec fn signature_of(payload: Seq<char>) -> u64 {
    DefaultHasher::spec_finish(fed_text(Seq::<Seq<u8>>::empty(), payload))
}

/// `<str as Hash>::hash`: feeds the text to the hasher.
///
/// Claimed of the standard library, not proved: what the hasher is fed depends
/// on the text alone.
#[verifier::external_body]
fn feed_text(state: &mut DefaultHasher, text: &str)
    ensures
        final(state)@ == fed_text(old(state)@, text@),
{
    text.hash(state)
}

/// Signs a payload: the payload as it came, with a 64-bit hash of it, which
/// depends on the payload alone. The hash is no authenticator.
pub fn sign(payload: String) -> (response: SignedResponse)
    ensures
        response.data@ == payload@,
        response.signature == signature_of(payload@),
{
    let mut hasher = DefaultHasher::new();
    feed_text(&mut hasher, payload.as_str());
    signed_response(hasher.finish(), payload)
}

} // verus!
