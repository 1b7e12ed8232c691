//! An encrypted per-user record store built on a self-synchronizing,
//! password-derived stream cipher.
//!
//! The cipher keystream is derived from a 64-bit key and fed back from the
//! ciphertext, so encryption and decryption advance the same state.  On top of
//! it sit length-prefixed record serialization ([`serializable`]), stream
//! types that transform bytes as they pass ([`input_stream`],
//! [`output_stream`]), and a file-format protocol that authenticates a
//! password by a key-echo header ([`user_session`]).
//!
//! The library works on in-memory byte buffers; reading and writing the
//! actual files is left to the caller.

pub mod cipher;
pub mod input_stream;
pub mod key;
pub mod output_stream;
pub mod serializable;
pub mod user_session;
