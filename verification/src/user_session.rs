//! The per-user file protocol: authentication by a key-echo header.
//!
//! A user's file starts with an 8-byte record holding the file's own key,
//! encrypted with that key.  Creating an account writes that header;
//! authenticating derives a key from the offered password, decrypts the
//! header with it and compares: a wrong key turns the header into a
//! pseudo-random value that almost surely differs.  Payload streams replay
//! the header first, because the cipher state can only be reached by
//! processing the file from its first byte.
//!
//! The session works on file contents as byte buffers; the caller looks the
//! file up, hands its bytes in, and persists the bytes handed back.

use crate::cipher::{cipher_state, decrypt, encrypt, lemma_decrypt_encrypt, lemma_encrypt_len};
use crate::input_stream::InputStream;
use crate::key::Key;
use crate::output_stream::OutputStream;
use crate::serializable::{le_bytes, le_value, lemma_le_value_le_bytes, Serializable};
use vstd::prelude::*;
use vstd::string::StringSliceAdditionalSpecFns;

verus! {

/// The ciphertext of a file's key-echo header under key value `k`: the key's
/// own wire bytes, encrypted with the key itself as one 8-byte run.
pub open spec fn key_echo(k: u64) -> Seq<u8> {
    encrypt(le_bytes(k), k, 0)
}

/// Whether file contents authenticate under key value `k`: the first 8
/// bytes, decrypted with `k`, echo `k` itself.
pub open spec fn header_matches(file: Seq<u8>, k: u64) -> bool {
    file.len() >= 8 && le_value(decrypt(file.take(8), k, 0)) == k
}

/// An authenticated user: the username and the key its password derived.
/// The session holds the original key, never a live cipher state — every
/// payload stream starts fresh from the key and replays the header.
pub struct UserSession {
    username: String,
    key: Key,
}

impl UserSession {
    /// The session's username.
    pub closed spec fn user(self) -> Seq<char> {
        self.username@
    }

    /// The session's derived key value.
    pub closed spec fn key_value(self) -> u64 {
        self.key.value
    }

    /// Logs a user in.  `file` is the contents of the user's file, or
    /// nothing if no such file exists (an unknown user).  Succeeds exactly
    /// when the file is there and its header echoes the key derived from
    /// `password`.
    pub fn authenticate(username: &str, password: &str, file: Option<Vec<u8>>) -> (r: Option<
        UserSession,
    >)
        ensures
            file is None ==> r is None,
            (file matches Some(f) ==> (r is Some <==> header_matches(
                f@,
                crate::key::derive(password.spec_bytes()),
            ))),
            (r matches Some(sess) ==> sess.user() == username@ && sess.key_value() == crate::key::derive(
                password.spec_bytes(),
            )),
    {
        let contents = match file {
            Some(f) => f,
            None => { return None; },
        };
        let ghost f0 = contents@;
        let key = Key::from(password);
        let mut istream = InputStream::new(contents, key);
        proof {
            assert(istream.remaining() =~= f0);
            assert(f0.take(8) =~= istream.remaining().take(8));
        }
        match istream.read::<Key>() {
            Some(observed) => if observed == key {
                Some(UserSession { username: username.to_owned(), key })
            } else {
                None
            },
            None => None,
        }
    }

    /// Creates an account.  `exists` says whether a file for `username` is
    /// already there; if so the username is taken and nothing happens.
    /// Otherwise the session comes with the new file's contents — the
    /// key-echo header — for the caller to persist.
    pub fn create(username: &str, password: &str, exists: bool) -> (r: Option<
        (UserSession, Vec<u8>),
    >)
        ensures
            exists ==> r is None,
            !exists ==> (r matches Some(p) && p.0.user() == username@ && p.0.key_value()
                == crate::key::derive(password.spec_bytes()) && p.1@ == key_echo(
                crate::key::derive(password.spec_bytes()),
            )),
    {
        if exists {
            return None;
        }
        let key = Key::from(password);
        let mut ostream = OutputStream::new(key);
        let _ = ostream.write(&key);
        Some((UserSession { username: username.to_owned(), key }, ostream.into_bytes()))
    }

    /// Opens a fresh reading stream on the user's file contents, replaying
    /// the 8-byte header to advance the cipher state past it.  Fails when
    /// the contents no longer echo the session's key.
    pub fn get_istream(&self, file: Vec<u8>) -> (r: Option<InputStream>)
        ensures
            r is Some <==> header_matches(file@, self.key_value()),
            (r matches Some(istream) ==> istream.wf() && istream.bytes() == file@
                && istream.pos() == 8 && istream.state() == cipher_state(
                file@.take(8),
                self.key_value(),
            )),
    {
        let ghost f = file@;
        let mut istream = InputStream::new(file, self.key);
        proof {
            assert(istream.remaining() =~= f);
            assert(f.take(8) =~= istream.remaining().take(8));
        }
        match istream.read::<Key>() {
            Some(observed) => if observed == self.key {
                Some(istream)
            } else {
                None
            },
            None => None,
        }
    }

    /// Opens a fresh writing stream for the user's file: truncation, not
    /// append — the header is rewritten first and the payload follows it.
    /// The caller persists the stream's bytes as the new file contents.
    pub fn get_ostream(&self) -> (r: OutputStream)
        ensures
            r.bytes() == key_echo(self.key_value()),
            r.state() == cipher_state(key_echo(self.key_value()), self.key_value()),
    {
        let mut ostream = OutputStream::new(self.key);
        let _ = ostream.write(&self.key);
        ostream
    }

    /// The session's username, for naming the user's file.
    pub fn username(&self) -> (r: &str)
        ensures
            r@ == self.user(),
    {
        self.username.as_str()
    }
}

/// The file `create` writes for a key authenticates under that key: creating
/// an account and logging straight back in with the same password succeeds,
/// whatever the password was.
pub proof fn lemma_create_then_authenticate(k: u64)
    ensures
        header_matches(key_echo(k), k),
{
    lemma_encrypt_len(le_bytes(k), k, 0);
    assert(key_echo(k).take(8) =~= key_echo(k));
    lemma_decrypt_encrypt(le_bytes(k), k, 0);
    lemma_le_value_le_bytes(k);
}



/// Whatever follows the key-echo header, the file still authenticates
/// under its key, and a fresh read stream positioned past the header sees
/// exactly the tail.
pub proof fn lemma_header_then_tail(k: u64, tail: Seq<u8>)
    ensures
        header_matches(key_echo(k) + tail, k),
        (key_echo(k) + tail).take(8) == key_echo(k),
        (key_echo(k) + tail).skip(8) == tail,
{
    lemma_encrypt_len(le_bytes(k), k, 0);
    assert((key_echo(k) + tail).take(8) =~= key_echo(k));
    assert((key_echo(k) + tail).skip(8) =~= tail);
    lemma_create_then_authenticate(k);
    assert(key_echo(k).take(8) =~= key_echo(k));
}

/// The payload round trip at the file level: a fresh write stream holds the
/// key-echo header, a text record written after it follows in the file, and
/// a fresh read stream over those contents accepts the header and reads the
/// text written — any text the machine can hold, under any key.  (That no
/// *other* text can be read there is `lemma_text_decode_determined`.)
#[verifier::rlimit(100)]
pub proof fn lemma_payload_round_trip(msg: String, k: u64, file: Seq<u8>)
    requires
        msg.fits(),
        file == key_echo(k) + msg.encoded(cipher_state(key_echo(k), k)),
    ensures
        header_matches(file, k),
        file.take(8) == key_echo(k),
        String::decode_ok(file.skip(8), cipher_state(file.take(8), k)),
        String::decodes_to(file.skip(8), cipher_state(file.take(8), k), msg),
{
    let s1 = cipher_state(key_echo(k), k);
    let enc = msg.encoded(s1);
    lemma_header_then_tail(k, enc);
    msg.lemma_round_trip(s1, Seq::<u8>::empty());
    assert(enc + Seq::<u8>::empty() =~= enc);
}

} // verus!
