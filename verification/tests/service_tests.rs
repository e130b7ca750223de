use field_cipher::envelope::{decode, encode};
use field_cipher::error::CipherError;
use field_cipher::key::{random_key, Setting};
use field_cipher::service::{decrypt, encrypt, encrypt_json, sign, signed_response};
use field_cipher::transform::Field;
use std::collections::hash_map::DefaultHasher;
use std::hash::{Hash, Hasher};

const KEY: &str = "an example very very secret key.";
const NONCE: &str = "unique nonce";
const SEALED_X: &str = "38/79/109/9/207/33/1/3/122/97/177/108/237/131/164/128/214/71/248";
const SEALED_7: &str = "51/187/137/151/247/131/39/118/74/182/30/125/16/160/119/229/134";

fn setting() -> Setting {
    Setting::new(String::from(KEY), String::from(NONCE)).ok().unwrap()
}

fn field(name: &str, value: &str) -> Field {
    Field { name: String::from(name), value: String::from(value) }
}

#[test]
fn sign_keeps_the_payload_and_hashes_it() {
    let response = sign(String::from("hello"));
    assert_eq!(response.data, "hello");
    let mut hasher = DefaultHasher::new();
    "hello".hash(&mut hasher);
    assert_eq!(response.signature, hasher.finish());
    assert_ne!(response.signature, DefaultHasher::new().finish());
}

#[test]
fn sign_gives_the_same_signature_for_the_same_payload() {
    assert_eq!(sign(String::from("hello")), sign(String::from("hello")));
    assert_ne!(sign(String::from("hello")).signature, sign(String::from("hellp")).signature);
}

#[test]
fn sign_takes_the_empty_payload() {
    let response = sign(String::new());
    assert_eq!(response.data, "");
    assert_eq!(response, sign(String::new()));
}

#[test]
fn signed_response_carries_both_parts() {
    let response = signed_response(42, String::from("body"));
    assert_eq!(response.signature, 42);
    assert_eq!(response.data, "body");
}

#[test]
fn encrypt_seals_the_value_of_a_string_field() {
    let out = encrypt("{\"a\":\"x\"}", &setting()).ok().unwrap();
    assert_eq!(out, format!("{{\"a\":\"{}\"}}", SEALED_X));
    let parsed: serde_json::Value = serde_json::from_str(&out).unwrap();
    let envelope = parsed["a"].as_str().unwrap();
    assert_eq!(decode(envelope).unwrap().len(), 19);
}

#[test]
fn encrypt_seals_the_json_text_of_any_value() {
    let out = encrypt("{\"n\": 7}", &setting()).ok().unwrap();
    assert_eq!(out, format!("{{\"n\":\"{}\"}}", SEALED_7));
}

#[test]
fn encrypt_seals_nested_values_as_one_blob() {
    let out = encrypt("{\"o\": {\"k\": [1, 2]}}", &setting()).ok().unwrap();
    let parsed: serde_json::Value = serde_json::from_str(&out).unwrap();
    let sealed = decode(parsed["o"].as_str().unwrap()).unwrap();
    assert_eq!(sealed.len(), "{\"k\":[1,2]}".len() + 16);
    assert_eq!(decrypt(&out, &setting()), Ok(String::from("{\"o\":\"{\\\"k\\\":[1,2]}\"}")));
}

#[test]
fn encrypt_of_the_empty_object_is_the_empty_object() {
    assert_eq!(encrypt("{}", &setting()), Ok(String::from("{}")));
    assert_eq!(decrypt("{}", &setting()), Ok(String::from("{}")));
}

#[test]
fn encrypt_is_deterministic() {
    let body = "{\"a\":\"x\",\"b\":[1,2,3],\"c\":null}";
    assert_eq!(encrypt(body, &setting()), encrypt(body, &setting()));
}

#[test]
fn encrypt_refuses_what_is_no_object() {
    assert_eq!(encrypt("[1,2]", &setting()), Err(CipherError::InputShape));
    assert_eq!(encrypt("7", &setting()), Err(CipherError::InputShape));
    assert_eq!(encrypt("\"a\"", &setting()), Err(CipherError::InputShape));
    assert_eq!(encrypt("null", &setting()), Err(CipherError::InputShape));
}

#[test]
fn encrypt_refuses_what_is_no_json() {
    assert_eq!(encrypt("", &setting()), Err(CipherError::InputShape));
    assert_eq!(encrypt("{\"a\":", &setting()), Err(CipherError::InputShape));
    assert_eq!(encrypt("{a:1}", &setting()), Err(CipherError::InputShape));
    assert_eq!(encrypt("{} {}", &setting()), Err(CipherError::InputShape));
}

#[test]
fn decrypt_gives_the_json_text_of_the_first_value() {
    let sealed = encrypt("{\"a\":\"x\"}", &setting()).ok().unwrap();
    assert_eq!(decrypt(&sealed, &setting()), Ok(String::from("{\"a\":\"\\\"x\\\"\"}")));
}

#[test]
fn decrypt_does_not_bring_the_type_back() {
    let sealed = encrypt("{\"n\":7,\"t\":true,\"z\":null}", &setting()).ok().unwrap();
    assert_eq!(
        decrypt(&sealed, &setting()),
        Ok(String::from("{\"n\":\"7\",\"t\":\"true\",\"z\":\"null\"}"))
    );
}

#[test]
fn decrypt_keeps_the_keys() {
    let sealed = encrypt("{\"b\":1,\"a\":\"x\",\"c\":[]}", &setting()).ok().unwrap();
    let opened = decrypt(&sealed, &setting()).ok().unwrap();
    let parsed: serde_json::Value = serde_json::from_str(&opened).unwrap();
    let object = parsed.as_object().unwrap();
    let keys: Vec<&str> = object.keys().map(|k| k.as_str()).collect();
    assert_eq!(keys, vec!["a", "b", "c"]);
    assert_eq!(object["a"].as_str(), Some("\"x\""));
    assert_eq!(object["b"].as_str(), Some("1"));
    assert_eq!(object["c"].as_str(), Some("[]"));
}

#[test]
fn decrypt_reads_text_outside_ascii_byte_by_byte() {
    let sealed = encrypt("{\"a\":\"\u{e9}\"}", &setting()).ok().unwrap();
    assert_eq!(
        decrypt(&sealed, &setting()),
        Ok(String::from("{\"a\":\"\\\"\u{c3}\u{a9}\\\"\"}"))
    );
}

#[test]
fn decrypt_refuses_a_tampered_last_byte() {
    let sealed = encrypt("{\"a\":\"x\"}", &setting()).ok().unwrap();
    let parsed: serde_json::Value = serde_json::from_str(&sealed).unwrap();
    let mut bytes = decode(parsed["a"].as_str().unwrap()).unwrap();
    let last = bytes.len() - 1;
    bytes[last] ^= 0x80;
    let tampered = format!("{{\"a\":\"{}\"}}", encode(&bytes));
    assert_eq!(decrypt(&tampered, &setting()), Err(CipherError::Crypto));
}

#[test]
fn decrypt_refuses_what_is_no_object() {
    assert_eq!(decrypt("[1,2]", &setting()), Err(CipherError::InputShape));
    assert_eq!(decrypt("not json", &setting()), Err(CipherError::InputShape));
}

#[test]
fn decrypt_refuses_a_value_that_is_no_string() {
    assert_eq!(decrypt("{\"a\":7}", &setting()), Err(CipherError::InputShape));
    assert_eq!(decrypt("{\"a\":[123]}", &setting()), Err(CipherError::InputShape));
    assert_eq!(decrypt("{\"a\":{\"b\":\"1/2\"}}", &setting()), Err(CipherError::InputShape));
}

#[test]
fn decrypt_refuses_a_string_that_is_no_envelope() {
    assert_eq!(decrypt("{\"a\":\"hello\"}", &setting()), Err(CipherError::Envelope));
    assert_eq!(decrypt("{\"a\":\"\"}", &setting()), Err(CipherError::Envelope));
    assert_eq!(decrypt("{\"a\":\"1/2/300\"}", &setting()), Err(CipherError::Envelope));
    assert_eq!(decrypt("{\"a\":\"1\\n2\"}", &setting()), Err(CipherError::Envelope));
}

#[test]
fn decrypt_takes_an_escaped_slash() {
    let body = format!("{{\"a\":\"{}\"}}", SEALED_X.replace('/', "\\/"));
    assert_eq!(decrypt(&body, &setting()), Ok(String::from("{\"a\":\"\\\"x\\\"\"}")));
}

#[test]
fn decrypt_gives_no_partial_result() {
    let body = format!("{{\"a\":\"{}\",\"b\":\"1/2/3\"}}", SEALED_X);
    assert_eq!(decrypt(&body, &setting()), Err(CipherError::Crypto));
}

#[test]
fn decrypt_fails_under_a_new_key() {
    let sealed = encrypt("{\"a\":\"x\"}", &setting()).ok().unwrap();
    let renewed = Setting::new(random_key(), String::from(NONCE)).ok().unwrap();
    assert_eq!(decrypt(&sealed, &renewed), Err(CipherError::Crypto));
}

#[test]
fn encrypt_json_writes_the_sealed_fields() {
    let fields = vec![field("a", "\"x\""), field("n", "7")];
    assert_eq!(
        encrypt_json(&setting(), &fields),
        Ok(format!("{{\"a\":\"{}\",\"n\":\"{}\"}}", SEALED_X, SEALED_7))
    );
}

fn is_canonical_fragment(fragment: &str) -> bool {
    match fragment.parse::<u8>() {
        Ok(b) => b.to_string() == fragment,
        Err(_) => false,
    }
}

#[test]
fn encrypt_gives_nineteen_fragments_for_a_one_letter_string() {
    let setting = Setting::new("A".repeat(32), String::from(NONCE)).ok().unwrap();
    let out = encrypt("{\"a\":\"x\"}", &setting).ok().unwrap();
    let parsed: serde_json::Value = serde_json::from_str(&out).unwrap();
    let envelope = parsed["a"].as_str().unwrap();
    assert_eq!(envelope.split('/').count(), 19);
    assert!(envelope.split('/').all(is_canonical_fragment));
}

#[test]
fn encrypt_gives_sixteen_fragments_more_than_the_value_has_bytes() {
    let setting = Setting::new("A".repeat(32), String::from(NONCE)).ok().unwrap();
    let out = encrypt("{\"n\":7,\"s\":\"hi\",\"o\":{\"b\":[1,2]}}", &setting).ok().unwrap();
    let parsed: serde_json::Value = serde_json::from_str(&out).unwrap();
    let object = parsed.as_object().unwrap();
    let mut keys: Vec<&str> = object.keys().map(|k| k.as_str()).collect();
    keys.sort();
    assert_eq!(keys, vec!["n", "o", "s"]);
    assert_eq!(object["n"].as_str().unwrap().split('/').count(), 17);
    assert_eq!(object["s"].as_str().unwrap().split('/').count(), 20);
    assert_eq!(object["o"].as_str().unwrap().split('/').count(), 27);
    for value in object.values() {
        let envelope = value.as_str().unwrap();
        assert!(!envelope.is_empty());
        assert!(envelope.split('/').all(is_canonical_fragment));
        assert!(envelope.split('/').count() >= 17);
    }
}

#[test]
fn decrypt_refuses_any_other_last_fragment() {
    let sealed = decode(SEALED_X).unwrap();
    let last = sealed.len() - 1;
    for w in 0..=255u8 {
        if w != sealed[last] {
            let mut changed = sealed.clone();
            changed[last] = w;
            let body = format!("{{\"a\":\"{}\"}}", encode(&changed));
            assert_eq!(decrypt(&body, &setting()), Err(CipherError::Crypto));
        }
    }
}

#[test]
fn sign_does_not_depend_on_what_was_signed_before() {
    let first = sign(String::from("hello"));
    let _ = sign(String::from("something else"));
    let _ = encrypt("{\"a\":\"x\"}", &setting());
    assert_eq!(sign(String::from("hello")).signature, first.signature);
}
