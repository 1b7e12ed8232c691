//! Password-to-key derivation.
//!
//! A password is folded byte by byte into a single 64-bit value with an
//! iterated multiply-add hash over wraparound arithmetic.  Any byte sequence
//! (including the empty one) yields a key; distinct passwords may collide,
//! with astronomically low probability, and the design accepts this.

use crate::cipher::{
    decrypt, encrypt, lemma_decrypt_encrypt, lemma_encrypt_len, INITIAL, MULT, SCRAMBLE,
};
use crate::input_stream::InputStream;
use crate::output_stream::OutputStream;
use crate::serializable::{
    le_bytes, le_value, lemma_le_value_le_bytes, u64_from_le_bytes, u64_to_le_bytes, Serializable,
};
use vstd::prelude::*;
use vstd::string::StringSliceAdditionalSpecFns;

verus! {

/// The derivation fold continued from accumulator `acc` over `bytes`.
pub open spec fn derive_from(bytes: Seq<u8>, acc: u64) -> u64
    decreases bytes.len(),
{
    if bytes.len() == 0 {
        acc
    } else {
        derive_from(
            bytes.drop_first(),
            acc.wrapping_mul(MULT).wrapping_add((bytes[0] as u64).wrapping_mul(SCRAMBLE)),
        )
    }
}

/// The key value derived from a password's bytes.  A plain function of the
/// bytes: the same bytes always yield the same value.
pub open spec fn derive(bytes: Seq<u8>) -> u64 {
    derive_from(bytes, INITIAL)
}

/// A 64-bit encryption key derived from a password.  Immutable once derived;
/// streams copy it into their own working state.  Two keys are equal iff
/// their integers are equal.
#[derive(Clone, Copy, Debug, PartialEq, Eq, Structural)]
pub struct Key {
    pub value: u64,
}

impl Key {
    /// Derives the key for `password` — deterministically: the result is
    /// fixed by the password's bytes alone.
    pub fn from(password: &str) -> (r: Key)
        ensures
            r.value == derive(password.spec_bytes()),
    {
        let bytes = password.as_bytes();
        let mut value: u64 = INITIAL;
        let mut i: usize = 0;
        assert(bytes@.skip(0) =~= bytes@);
        while i < bytes.len()
            invariant
                i <= bytes.len(),
                bytes@ == password.spec_bytes(),
                derive(password.spec_bytes()) == derive_from(bytes@.skip(i as int), value),
            decreases bytes.len() - i,
        {
            assert(bytes@.skip(i as int)[0] == bytes@[i as int]);
            assert(bytes@.skip(i as int).drop_first() =~= bytes@.skip(i as int + 1));
            value = value.wrapping_mul(MULT).wrapping_add(
                (bytes[i] as u64).wrapping_mul(SCRAMBLE),
            );
            i += 1;
        }
        assert(bytes@.skip(bytes@.len() as int) =~= Seq::<u8>::empty());
        Key { value }
    }
}

impl Serializable for Key {
    /// One fixed 8-byte record: the key value's wire bytes, encrypted as one
    /// run.
    open spec fn encoded(&self, s: u64) -> Seq<u8> {
        encrypt(le_bytes(self.value), s, 0)
    }

    open spec fn fits(&self) -> bool {
        true
    }

    /// Reading needs nothing but 8 ciphertext bytes.
    open spec fn decode_ok(cipher: Seq<u8>, s: u64) -> bool {
        cipher.len() >= 8
    }

    /// Whatever the 8 bytes decrypt to is the value read — a wrong key
    /// yields a wrong value, not a failure.
    open spec fn decodes_to(cipher: Seq<u8>, s: u64, v: Self) -> bool {
        v.value == le_value(decrypt(cipher.take(8), s, 0))
    }

    open spec fn consumed(cipher: Seq<u8>, s: u64) -> int {
        if cipher.len() < 8 {
            cipher.len() as int
        } else {
            8
        }
    }

    fn serialize(&self, ostream: &mut OutputStream) -> (r: Option<()>) {
        let buf = u64_to_le_bytes(self.value);
        ostream.write_raw(&buf);
        Some(())
    }

    fn deserialize(istream: &mut InputStream) -> (r: Option<Key>) {
        let buf = istream.read_raw(8);
        if buf.len() == 8 {
            let value = u64_from_le_bytes(&buf);
            Some(Key { value })
        } else {
            None
        }
    }

    proof fn lemma_round_trip(&self, s: u64, rest: Seq<u8>) {
        lemma_encrypt_len(le_bytes(self.value), s, 0);
        assert((self.encoded(s) + rest).take(8) =~= self.encoded(s));
        lemma_decrypt_encrypt(le_bytes(self.value), s, 0);
        lemma_le_value_le_bytes(self.value);
    }
}

} // verus!
