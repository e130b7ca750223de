//! The key store: what a key is, how a new one is drawn, and which key a
//! process starts with.

use crate::cipher::{KEY_BYTES, NONCE_BYTES};
use crate::error::CipherError;
use crate::text::push_char;
use rand::rngs::ThreadRng;
use rand::Rng;
use vstd::prelude::*;
use vstd::string::*;
use vstd::utf8::*;

verus! {

/// The characters that a generated key is drawn from.
pub const CHARSET: &'static str =
    "ABCDEFGHIJKLMNOPQRSTUVWXYZabcdefghijklmnopqrstuvwxyz0123456789)(*&^%$#@!~";

/// The number of characters in `CHARSET`.
pub const CHARSET_LEN: usize = 73;

/// The number of characters of a generated key.
pub const KEY_LEN: usize = 32;

/// `c` is one of the characters of `CHARSET`.
pub open spec fn in_charset(c: char) -> bool {
    CHARSET@.contains(c)
}

/// A key as `random_key` makes it: `KEY_LEN` characters of `CHARSET`.
pub open spec fn is_generated_key(key: Seq<char>) -> bool {
    &&& key.len() == KEY_LEN
    &&& forall|i: int| 0 <= i < key.len() ==> in_charset(#[trigger] key[i])
}

/// `CHARSET` has `CHARSET_LEN` characters, all of them ASCII.
pub proof fn lemma_charset()
    ensures
        CHARSET@.len() == CHARSET_LEN,
        is_ascii_chars(CHARSET@),
{
    reveal_strlit("ABCDEFGHIJKLMNOPQRSTUVWXYZabcdefghijklmnopqrstuvwxyz0123456789)(*&^%$#@!~");
}

/// A generated key is ASCII, so it is as many bytes long as it has characters.
pub proof fn lemma_generated_key_bytes(key: Seq<char>)
    requires
        is_generated_key(key),
    ensures
        is_ascii_chars(key),
        encode_utf8(key).len() == KEY_BYTES,
{
    lemma_charset();
    assert forall|i: int| 0 <= i < key.len() implies '\0' <= #[trigger] key[i] <= '\u{7f}' by {
        assert(in_charset(key[i]));
        let j = choose|j: int| 0 <= j < CHARSET@.len() && CHARSET@[j] == key[i];
        assert('\0' <= CHARSET@[j] <= '\u{7f}');
    }
    is_ascii_chars_encode_utf8(key);
}

#[verifier::external_type_specification]
#[verifier::external_body]
pub struct ExThreadRng(ThreadRng);

/// `rand::thread_rng`: the calling thread's generator. Nothing is claimed of it.
pub assume_specification[ rand::thread_rng ]() -> (rng: ThreadRng);

/// `Rng::gen_range` on `0..bound`: some index below `bound`. Which one is not
/// said: two draws may differ.
#[verifier::external_body]
fn draw_index(rng: &mut ThreadRng, bound: usize) -> (index: usize)
    requires
        bound > 0,
    ensures
        index < bound,
{
    rng.gen_range(0..bound)
}

/// The character of `CHARSET` at `index`.
pub fn charset_char(index: usize) -> (c: char)
    requires
        index < CHARSET_LEN,
    ensures
        c == CHARSET@[index as int],
        in_charset(c),
{
    proof {
        lemma_charset();
    }
    CHARSET.get_char(index)
}

/// Draws a new key: `KEY_LEN` characters, each drawn from `CHARSET` with
/// replacement.
pub fn random_key() -> (key: String)
    ensures
        is_generated_key(key@),
        encode_utf8(key@).len() == KEY_BYTES,
{
    let mut rng = rand::thread_rng();
    let mut key = String::new();
    let mut i: usize = 0;
    while i < KEY_LEN
        invariant
            i <= KEY_LEN,
            key@.len() == i,
            forall|j: int| 0 <= j < key@.len() ==> in_charset(#[trigger] key@[j]),
        decreases KEY_LEN - i,
    {
        let index = draw_index(&mut rng, CHARSET_LEN);
        push_char(&mut key, charset_char(index));
        i += 1;
    }
    proof {
        lemma_generated_key_bytes(key@);
    }
    key
}

/// The key that a process starts with, and whether it has yet to be stored.
pub struct LoadedKey {
    /// The key.
    pub key: String,
    /// The key was drawn just now: it is not in the key file yet.
    pub fresh: bool,
}

/// Chooses the key of a process from what the key file gave: `stored` is the
/// file's text, or `None` where it could not be read.
///
/// A stored key is taken as it is, whatever its characters, if it is
/// `KEY_BYTES` bytes long, and refused otherwise. Without a stored key a new
/// one is drawn, which the caller has to store.
pub fn load_cipher_key(stored: Option<String>) -> (r: Result<LoadedKey, CipherError>)
    ensures
        match stored {
            Some(text) => if encode_utf8(text@).len() == KEY_BYTES {
                r matches Ok(loaded) && loaded.key@ == text@ && !loaded.fresh
            } else {
                r == Err::<LoadedKey, CipherError>(CipherError::KeyMaterial)
            },
            None => r matches Ok(loaded) && loaded.fresh && is_generated_key(loaded.key@),
        },
        r matches Ok(loaded) ==> encode_utf8(loaded.key@).len() == KEY_BYTES,
{
    match stored {
        Some(text) => {
            if text.as_str().as_bytes().len() == KEY_BYTES {
                Ok(LoadedKey { key: text, fresh: false })
            } else {
                Err(CipherError::KeyMaterial)
            }
        },
        None => Ok(LoadedKey { key: random_key(), fresh: true }),
    }
}

/// The key and the nonce that every request of a process is served with.
pub struct Setting {
    key: String,
    nonce: String,
}

impl Setting {
    #[verifier::type_invariant]
    spec fn well_formed(self) -> bool {
        &&& encode_utf8(self.key@).len() == KEY_BYTES
        &&& encode_utf8(self.nonce@).len() == NONCE_BYTES
    }

    /// The key, as text.
    pub closed spec fn key_text(self) -> Seq<char> {
        self.key@
    }

    /// The nonce, as text.
    pub closed spec fn nonce_text(self) -> Seq<char> {
        self.nonce@
    }

    /// The bytes of the key: those of its text in UTF-8.
    pub open spec fn key_bytes(self) -> Seq<u8> {
        encode_utf8(self.key_text())
    }

    /// The bytes of the nonce: those of its text in UTF-8.
    pub open spec fn nonce_bytes(self) -> Seq<u8> {
        encode_utf8(self.nonce_text())
    }

    /// Holds a key and a nonce, if they have the lengths that the cipher takes.
    pub fn new(key: String, nonce: String) -> (r: Result<Setting, CipherError>)
        ensures
            r is Ok <==> encode_utf8(key@).len() == KEY_BYTES && encode_utf8(nonce@).len()
                == NONCE_BYTES,
            r matches Ok(setting) ==> setting.key_text() == key@ && setting.nonce_text() == nonce@,
            r matches Err(e) ==> e == CipherError::KeyMaterial,
    {
        if key.as_str().as_bytes().len() == KEY_BYTES && nonce.as_str().as_bytes().len()
            == NONCE_BYTES {
            Ok(Setting { key, nonce })
        } else {
            Err(CipherError::KeyMaterial)
        }
    }

    /// The key, as bytes.
    pub fn key(&self) -> (bytes: &[u8])
        ensures
            bytes@ == self.key_bytes(),
            bytes@.len() == KEY_BYTES,
    {
        proof {
            use_type_invariant(self);
        }
        self.key.as_str().as_bytes()
    }

    /// The nonce, as bytes.
    pub fn nonce(&self) -> (bytes: &[u8])
        ensures
            bytes@ == self.nonce_bytes(),
            bytes@.len() == NONCE_BYTES,
    {
        proof {
            use_type_invariant(self);
        }
        self.nonce.as_str().as_bytes()
    }
}

} // verus!
