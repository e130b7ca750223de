//! Field-level encryption of JSON objects.
//!
//! Every top-level field of a JSON object is sealed with AES-256-GCM under a
//! process-wide key and nonce, and the ciphertext is carried as an *envelope*:
//! the decimal values of its bytes, separated by `/`.

pub mod cipher;
pub mod envelope;
pub mod error;
pub mod json;
pub mod key;
pub mod service;
mod text;
pub mod transform;
