//! The ways in which a request or the key material can be refused.

use vstd::prelude::*;

verus! {

/// Why an operation of this library was refused.
#[derive(Clone, Copy, Debug, PartialEq, Eq, Structural)]
pub enum CipherError {
    /// The document is not JSON, its top level is not an object, or a field
    /// handed to decryption is not a JSON string.
    InputShape,
    /// A field handed to decryption is a string but not an envelope.
    Envelope,
    /// AES-GCM refused: the authentication tag does not match, or the message
    /// is longer than the cipher takes.
    Crypto,
    /// The key is not 32 bytes long, or the nonce not 12.
    KeyMaterial,
}

} // verus!
