//! The field transformer: every field of an object is sealed and written as an
//! envelope, or read from its envelope and opened.

use crate::cipher::{
    differs_in_tag, gcm_open, gcm_seal, open, seal, MAX_MESSAGE_BYTES, MAX_SEALED_BYTES,
    TAG_BYTES,
};
use crate::envelope::{decode, decode_spec, encode, encode_spec, lemma_decode_encode};
use crate::error::CipherError;
use crate::key::Setting;
use crate::text::push_char;
use vstd::prelude::*;
use vstd::string::*;
use vstd::utf8::*;

verus! {

/// One field of a JSON object: its name, and its value as JSON text.
#[derive(Clone, Debug, PartialEq, Eq)]
pub struct Field {
    /// The name of the field.
    pub name: String,
    /// The value of the field.
    pub value: String,
}

/// A field as the contracts speak of it.
pub struct FieldView {
    /// The name of the field.
    pub name: Seq<char>,
    /// The value of the field.
    pub value: Seq<char>,
}

impl View for Field {
    type V = FieldView;

    open spec fn view(&self) -> FieldView {
        FieldView { name: self.name@, value: self.value@ }
    }
}

/// The views of a list of fields, in order.
pub open spec fn views(fields: Seq<Field>) -> Seq<FieldView> {
    fields.map_values(|f: Field| f@)
}

/// The text whose characters have the values of the bytes, one for one.
pub open spec fn latin1_text(bytes: Seq<u8>) -> Seq<char> {
    bytes.map_values(|b: u8| b as char)
}

/// `text` is the JSON text of a string: it stands between two `"`.
pub open spec fn is_string_text(text: Seq<char>) -> bool {
    text.len() >= 2 && text[0] == '"' && text.last() == '"'
}

/// What stands between the first and the last character.
pub open spec fn string_body(text: Seq<char>) -> Seq<char> {
    text.subrange(1, text.len() - 1)
}

/// `body` between two `"`.
pub open spec fn quoted(body: Seq<char>) -> Seq<char> {
    seq!['"'] + body + seq!['"']
}

/// The cipher takes the text: its UTF-8 bytes are no more than it seals.
pub open spec fn fits_cipher(text: Seq<char>) -> bool {
    encode_utf8(text).len() <= MAX_MESSAGE_BYTES
}

/// `envelope` holds a sealed form of `text`: it decodes, to 16 bytes more than
/// the UTF-8 bytes of `text`.
pub open spec fn is_sealing_of(envelope: Seq<char>, text: Seq<char>) -> bool {
    decode_spec(envelope) matches Some(sealed) && sealed.len() == encode_utf8(text).len()
        + TAG_BYTES
}

/// `sealed` are the fields `fields` under the same names and in the same
/// order, every value an envelope that holds a sealed form of the first value.
pub open spec fn all_sealings(fields: Seq<FieldView>, sealed: Seq<FieldView>) -> bool {
    &&& sealed.len() == fields.len()
    &&& forall|i: int|
        0 <= i < sealed.len() ==> (#[trigger] sealed[i]).name == fields[i].name && is_sealing_of(
            sealed[i].value,
            fields[i].value,
        )
}

/// `text` is a JSON string that holds an envelope of a sealed message whose
/// tag was changed: the sealed bytes of some message under this key and
/// nonce, with the same ciphertext and another tag.
pub open spec fn is_tampered(key: Seq<u8>, nonce: Seq<u8>, text: Seq<char>) -> bool {
    &&& is_string_text(text)
    &&& decode_spec(string_body(text)) matches Some(sealed)
    &&& exists|m: Seq<u8>|
        (#[trigger] gcm_seal(key, nonce, m)) matches Some(c) && differs_in_tag(c, sealed)
}

/// The envelope that a value is replaced with: the UTF-8 bytes of its text
/// are sealed, and what the cipher gives is written as an envelope. A text
/// that is too long for the cipher is refused.
pub open spec fn seal_text_spec(key: Seq<u8>, nonce: Seq<u8>, text: Seq<char>) -> Result<
    Seq<char>,
    CipherError,
> {
    if !fits_cipher(text) {
        Err(CipherError::Crypto)
    } else {
        match gcm_seal(key, nonce, encode_utf8(text)) {
            Some(sealed) => Ok(encode_spec(sealed)),
            None => Err(CipherError::Crypto),
        }
    }
}

/// The text that a sealed value is replaced with. The value must be the JSON
/// text of a string that holds an envelope which the cipher opens; the bytes
/// of the message become characters one for one. Sealed bytes that are too
/// many for the cipher are refused as the cipher refuses.
pub open spec fn open_text_spec(key: Seq<u8>, nonce: Seq<u8>, text: Seq<char>) -> Result<
    Seq<char>,
    CipherError,
> {
    if !is_string_text(text) {
        Err(CipherError::InputShape)
    } else {
        match decode_spec(string_body(text)) {
            None => Err(CipherError::Envelope),
            Some(sealed) => if sealed.len() > MAX_SEALED_BYTES {
                Err(CipherError::Crypto)
            } else {
                match gcm_open(key, nonce, sealed) {
                    None => Err(CipherError::Crypto),
                    Some(message) => Ok(latin1_text(message)),
                }
            },
        }
    }
}

/// A field with the same name and another value, or the error that stands in
/// the value's place.
pub open spec fn with_value(field: FieldView, value: Result<Seq<char>, CipherError>) -> Result<
    FieldView,
    CipherError,
> {
    match value {
        Ok(v) => Ok(FieldView { name: field.name, value: v }),
        Err(e) => Err(e),
    }
}

/// All the fields if every one is there, else the first error.
pub open spec fn all_or_first_error(results: Seq<Result<FieldView, CipherError>>) -> Result<
    Seq<FieldView>,
    CipherError,
>
    decreases results.len(),
{
    if results.len() == 0 {
        Ok(Seq::empty())
    } else {
        match results[0] {
            Err(e) => Err(e),
            Ok(first) => match all_or_first_error(results.drop_first()) {
                Ok(rest) => Ok(seq![first] + rest),
                Err(e) => Err(e),
            },
        }
    }
}

/// The fields with every value sealed, under the same names and in the same
/// order; the first value that cannot be sealed fails the whole.
pub open spec fn encrypt_fields_spec(
    key: Seq<u8>,
    nonce: Seq<u8>,
    fields: Seq<FieldView>,
) -> Result<Seq<FieldView>, CipherError> {
    all_or_first_error(
        fields.map_values(|f: FieldView| with_value(f, seal_text_spec(key, nonce, f.value))),
    )
}

/// The fields with every value opened, under the same names and in the same
/// order; the first value that cannot be opened fails the whole.
pub open spec fn decrypt_fields_spec(
    key: Seq<u8>,
    nonce: Seq<u8>,
    fields: Seq<FieldView>,
) -> Result<Seq<FieldView>, CipherError> {
    all_or_first_error(
        fields.map_values(|f: FieldView| with_value(f, open_text_spec(key, nonce, f.value))),
    )
}

/// The fields as a JSON document carries them once they are sealed: every
/// value, a string, as its JSON text.
pub open spec fn quote_values(fields: Seq<FieldView>) -> Seq<FieldView> {
    fields.map_values(|f: FieldView| FieldView { name: f.name, value: quoted(f.value) })
}

/// The fields as they come back from sealing and opening: every value is the
/// UTF-8 bytes of the first text, read as one character each.
pub open spec fn latin1_values(fields: Seq<FieldView>) -> Seq<FieldView> {
    fields.map_values(
        |f: FieldView| FieldView { name: f.name, value: latin1_text(encode_utf8(f.value)) },
    )
}

/// Where every field is there, the whole is the list of them.
pub proof fn lemma_all_fields(results: Seq<Result<FieldView, CipherError>>, fields: Seq<FieldView>)
    requires
        results.len() == fields.len(),
        forall|i: int| 0 <= i < results.len() ==> #[trigger] results[i] == Ok::<
            FieldView,
            CipherError,
        >(fields[i]),
    ensures
        all_or_first_error(results) == Ok::<Seq<FieldView>, CipherError>(fields),
    decreases results.len(),
{
    if results.len() == 0 {
        assert(fields == Seq::<FieldView>::empty());
    } else {
        let rest = results.drop_first();
        assert forall|i: int| 0 <= i < rest.len() implies #[trigger] rest[i] == Ok::<
            FieldView,
            CipherError,
        >(fields.drop_first()[i]) by {
            assert(rest[i] == results[i + 1]);
        }
        lemma_all_fields(rest, fields.drop_first());
        assert(results[0] == Ok::<FieldView, CipherError>(fields[0]));
        assert(seq![fields[0]] + fields.drop_first() == fields);
    }
}

/// Where a field fails and every one before it is there, the whole fails as
/// that field does.
pub proof fn lemma_first_error(results: Seq<Result<FieldView, CipherError>>, at: int)
    requires
        0 <= at < results.len(),
        results[at] is Err,
        forall|i: int| 0 <= i < at ==> (#[trigger] results[i]) is Ok,
    ensures
        all_or_first_error(results) == Err::<Seq<FieldView>, CipherError>(results[at]->Err_0),
    decreases at,
{
    if at > 0 {
        let rest = results.drop_first();
        assert forall|i: int| 0 <= i < at - 1 implies (#[trigger] rest[i]) is Ok by {
            assert(rest[i] == results[i + 1]);
        }
        assert(rest[at - 1] == results[at]);
        lemma_first_error(rest, at - 1);
        assert(results[0] is Ok);
    }
}

/// An envelope whose last byte was changed, as a JSON document carries it, is
/// a sealed message whose tag was changed: decryption refuses it.
pub proof fn lemma_changed_last_byte(
    key: Seq<u8>,
    nonce: Seq<u8>,
    message: Seq<u8>,
    sealed: Seq<u8>,
    byte: u8,
)
    requires
        gcm_seal(key, nonce, message) == Some(sealed),
        sealed.len() >= TAG_BYTES,
        byte != sealed.last(),
    ensures
        is_tampered(key, nonce, quoted(encode_spec(sealed.update(sealed.len() - 1, byte)))),
{
    let other = sealed.update(sealed.len() - 1, byte);
    let text = quoted(encode_spec(other));
    lemma_decode_encode(other);
    assert(string_body(text) == encode_spec(other));
    assert(other.take(other.len() - TAG_BYTES) == sealed.take(sealed.len() - TAG_BYTES));
    assert(other[other.len() - 1] != sealed[sealed.len() - 1]);
    assert(differs_in_tag(sealed, other));
}

/// Fields whose values are ASCII alone come back from sealing and opening as
/// they were.
pub proof fn lemma_latin1_values_of_ascii(fields: Seq<FieldView>)
    requires
        forall|i: int| 0 <= i < fields.len() ==> is_ascii_chars(#[trigger] fields[i].value),
    ensures
        latin1_values(fields) == fields,
{
    assert forall|i: int| 0 <= i < fields.len() implies latin1_values(fields)[i] == fields[i] by {
        lemma_latin1_of_ascii(fields[i].value);
    }
    assert(latin1_values(fields) =~= fields);
}

/// A text of ASCII characters alone comes back from sealing and opening as it
/// was: its UTF-8 bytes, read as one character each, are the text.
pub proof fn lemma_latin1_of_ascii(text: Seq<char>)
    requires
        is_ascii_chars(text),
    ensures
        latin1_text(encode_utf8(text)) == text,
{
    is_ascii_chars_encode_utf8(text);
    let back = latin1_text(encode_utf8(text));
    assert forall|i: int| 0 <= i < text.len() implies back[i] == text[i] by {
        assert('\0' <= text[i] <= '\u{7f}');
        assert(encode_utf8(text)[i] == text[i] as u8);
    }
    assert(back =~= text);
}

/// The text whose characters have the values of the bytes, one for one.
pub fn latin1(bytes: &[u8]) -> (text: String)
    ensures
        text@ == latin1_text(bytes@),
{
    let mut text = String::new();
    let n = bytes.len();
    let mut i: usize = 0;
    while i < n
        invariant
            i <= n,
            n == bytes@.len(),
            text@ == latin1_text(bytes@.take(i as int)),
        decreases n - i,
    {
        push_char(&mut text, bytes[i] as char);
        assert(latin1_text(bytes@.take(i + 1)) == latin1_text(bytes@.take(i as int)).push(
            bytes@[i as int] as char,
        ));
        i += 1;
    }
    assert(bytes@.take(n as int) == bytes@);
    text
}

/// Seals one value: the envelope of the sealed UTF-8 bytes of `text`. Only a
/// text that is too long for the cipher is refused.
///
/// The envelope, put between two `"` as a JSON document carries it, opens
/// again under the same key and nonce, to the bytes of `text` read as one
/// character each. It holds 16 bytes more than `text` has.
pub fn seal_text(setting: &Setting, text: &str) -> (r: Result<String, CipherError>)
    ensures
        r is Ok <==> fits_cipher(text@),
        r matches Ok(envelope) ==> seal_text_spec(
            setting.key_bytes(),
            setting.nonce_bytes(),
            text@,
        ) == Ok::<Seq<char>, CipherError>(envelope@),
        r matches Err(e) ==> seal_text_spec(setting.key_bytes(), setting.nonce_bytes(), text@)
            == Err::<Seq<char>, CipherError>(e),
        r matches Ok(envelope) ==> open_text_spec(
            setting.key_bytes(),
            setting.nonce_bytes(),
            quoted(envelope@),
        ) == Ok::<Seq<char>, CipherError>(latin1_text(encode_utf8(text@))),
        r matches Ok(envelope) ==> is_sealing_of(envelope@, text@),
{
    let message = text.as_bytes();
    if message.len() as u64 > MAX_MESSAGE_BYTES {
        return Err(CipherError::Crypto);
    }
    match seal(setting.key(), setting.nonce(), message) {
        None => Err(CipherError::Crypto),
        Some(sealed) => {
            let envelope = encode(sealed.as_slice());
            proof {
                lemma_decode_encode(sealed@);
                assert(string_body(quoted(envelope@)) == envelope@);
            }
            Ok(envelope)
        },
    }
}

/// Opens one value: `text` must be the JSON text of a string that holds an
/// envelope; the opened bytes become characters one for one.
///
/// A sealed message whose tag was changed is refused.
pub fn open_text(setting: &Setting, text: &str) -> (r: Result<String, CipherError>)
    ensures
        r matches Ok(opened) ==> open_text_spec(setting.key_bytes(), setting.nonce_bytes(), text@)
            == Ok::<Seq<char>, CipherError>(opened@),
        r matches Err(e) ==> open_text_spec(setting.key_bytes(), setting.nonce_bytes(), text@)
            == Err::<Seq<char>, CipherError>(e),
        is_tampered(setting.key_bytes(), setting.nonce_bytes(), text@) ==> r == Err::<
            String,
            CipherError,
        >(CipherError::Crypto),
{
    let n = text.unicode_len();
    if n < 2 {
        return Err(CipherError::InputShape);
    }
    if text.get_char(0) != '"' || text.get_char(n - 1) != '"' {
        return Err(CipherError::InputShape);
    }
    let body = text.substring_char(1, n - 1);
    match decode(body) {
        None => Err(CipherError::Envelope),
        Some(sealed) => {
            if sealed.len() as u64 > MAX_SEALED_BYTES {
                return Err(CipherError::Crypto);
            }
            match open(setting.key(), setting.nonce(), sealed.as_slice()) {
                None => Err(CipherError::Crypto),
                Some(message) => Ok(latin1(message.as_slice())),
            }
        },
    }
}

/// Seals every field: each value is replaced with the envelope of its sealed
/// text. Names and order stay. Only a value that is too long for the cipher
/// is refused.
///
/// What comes out opens again: decrypting the sealed fields, each value as
/// the JSON text of a string, gives the first fields back, every value as its
/// UTF-8 bytes read as one character each. Every envelope holds 16 bytes more
/// than the value it stands for.
pub fn encrypt_fields(setting: &Setting, fields: &Vec<Field>) -> (r: Result<
    Vec<Field>,
    CipherError,
>)
    ensures
        r is Ok <==> forall|i: int|
            0 <= i < fields@.len() ==> fits_cipher(#[trigger] fields@[i].value@),
        r matches Ok(sealed) ==> encrypt_fields_spec(
            setting.key_bytes(),
            setting.nonce_bytes(),
            views(fields@),
        ) == Ok::<Seq<FieldView>, CipherError>(views(sealed@)),
        r matches Err(e) ==> encrypt_fields_spec(
            setting.key_bytes(),
            setting.nonce_bytes(),
            views(fields@),
        ) == Err::<Seq<FieldView>, CipherError>(e),
        r matches Ok(sealed) ==> decrypt_fields_spec(
            setting.key_bytes(),
            setting.nonce_bytes(),
            quote_values(views(sealed@)),
        ) == Ok::<Seq<FieldView>, CipherError>(latin1_values(views(fields@))),
        r matches Ok(sealed) ==> all_sealings(views(fields@), views(sealed@)),
{
    let ghost key = setting.key_bytes();
    let ghost nonce = setting.nonce_bytes();
    let ghost input = views(fields@);
    let ghost results = input.map_values(
        |f: FieldView| with_value(f, seal_text_spec(key, nonce, f.value)),
    );
    let n = fields.len();
    let mut out: Vec<Field> = Vec::new();
    let mut i: usize = 0;
    while i < n
        invariant
            i <= n,
            n == fields@.len(),
            out@.len() == i,
            key == setting.key_bytes(),
            nonce == setting.nonce_bytes(),
            input == views(fields@),
            results == input.map_values(
                |f: FieldView| with_value(f, seal_text_spec(key, nonce, f.value)),
            ),
            forall|j: int| 0 <= j < i ==> #[trigger] results[j] == Ok::<FieldView, CipherError>(
                out@[j]@,
            ),
            forall|j: int|
                0 <= j < i ==> open_text_spec(key, nonce, quoted((#[trigger] out@[j]).value@))
                    == Ok::<Seq<char>, CipherError>(latin1_text(encode_utf8(fields@[j].value@))),
            forall|j: int| 0 <= j < i ==> (#[trigger] out@[j]).name@ == fields@[j].name@,
            forall|j: int| 0 <= j < i ==> fits_cipher(#[trigger] fields@[j].value@),
            forall|j: int|
                0 <= j < i ==> is_sealing_of((#[trigger] out@[j]).value@, fields@[j].value@),
        decreases n - i,
    {
        let field = &fields[i];
        assert(input[i as int] == field@);
        match seal_text(setting, field.value.as_str()) {
            Err(e) => {
                proof {
                    assert(results[i as int] == Err::<FieldView, CipherError>(e));
                    lemma_first_error(results, i as int);
                }
                return Err(e);
            },
            Ok(envelope) => {
                out.push(Field { name: field.name.clone(), value: envelope });
            },
        }
        i += 1;
    }
    proof {
        let sealed = views(out@);
        assert forall|j: int| 0 <= j < results.len() implies #[trigger] results[j] == Ok::<
            FieldView,
            CipherError,
        >(sealed[j]) by {
            assert(results[j] == Ok::<FieldView, CipherError>(out@[j]@));
        }
        lemma_all_fields(results, sealed);
        let back = quote_values(sealed).map_values(
            |f: FieldView| with_value(f, open_text_spec(key, nonce, f.value)),
        );
        let plain = latin1_values(input);
        assert forall|j: int| 0 <= j < back.len() implies #[trigger] back[j] == Ok::<
            FieldView,
            CipherError,
        >(plain[j]) by {
            assert(sealed[j] == out@[j]@);
            assert(input[j] == fields@[j]@);
            assert(out@[j].name@ == fields@[j].name@);
        }
        lemma_all_fields(back, plain);
    }
    Ok(out)
}

/// Opens every field: each value, the JSON text of a string that holds an
/// envelope, is replaced with the opened text. Names and order stay.
///
/// Nothing is opened where one value is a sealed message whose tag was
/// changed.
pub fn decrypt_json(setting: &Setting, fields: &Vec<Field>) -> (r: Result<
    Vec<Field>,
    CipherError,
>)
    ensures
        r matches Ok(opened) ==> decrypt_fields_spec(
            setting.key_bytes(),
            setting.nonce_bytes(),
            views(fields@),
        ) == Ok::<Seq<FieldView>, CipherError>(views(opened@)),
        r matches Err(e) ==> decrypt_fields_spec(
            setting.key_bytes(),
            setting.nonce_bytes(),
            views(fields@),
        ) == Err::<Seq<FieldView>, CipherError>(e),
        forall|i: int|
            0 <= i < fields@.len() && is_tampered(
                setting.key_bytes(),
                setting.nonce_bytes(),
                #[trigger] fields@[i].value@,
            ) ==> r is Err,
{
    let ghost key = setting.key_bytes();
    let ghost nonce = setting.nonce_bytes();
    let ghost input = views(fields@);
    let ghost results = input.map_values(
        |f: FieldView| with_value(f, open_text_spec(key, nonce, f.value)),
    );
    let n = fields.len();
    let mut out: Vec<Field> = Vec::new();
    let mut i: usize = 0;
    while i < n
        invariant
            i <= n,
            n == fields@.len(),
            out@.len() == i,
            key == setting.key_bytes(),
            nonce == setting.nonce_bytes(),
            input == views(fields@),
            results == input.map_values(
                |f: FieldView| with_value(f, open_text_spec(key, nonce, f.value)),
            ),
            forall|j: int| 0 <= j < i ==> #[trigger] results[j] == Ok::<FieldView, CipherError>(
                out@[j]@,
            ),
            forall|j: int| 0 <= j < i ==> !is_tampered(key, nonce, #[trigger] fields@[j].value@),
        decreases n - i,
    {
        let field = &fields[i];
        assert(input[i as int] == field@);
        match open_text(setting, field.value.as_str()) {
            Err(e) => {
                proof {
                    assert(results[i as int] == Err::<FieldView, CipherError>(e));
                    lemma_first_error(results, i as int);
                }
                return Err(e);
            },
            Ok(opened) => {
                out.push(Field { name: field.name.clone(), value: opened });
            },
        }
        i += 1;
    }
    proof {
        let opened = views(out@);
        assert forall|j: int| 0 <= j < results.len() implies #[trigger] results[j] == Ok::<
            FieldView,
            CipherError,
        >(opened[j]) by {
            assert(results[j] == Ok::<FieldView, CipherError>(out@[j]@));
        }
        lemma_all_fields(results, opened);
    }
    Ok(out)
}

} // verus!
