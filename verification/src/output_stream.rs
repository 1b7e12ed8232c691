//! A writing stream that encrypts everything it is handed.
//!
//! The stream owns the ciphertext produced so far and a live cipher state
//! seeded from a key.  Each `write_raw` call is one cipher run: keystream
//! byte positions restart at the beginning of every call.  Writing is
//! strictly sequential and the state is not resettable; a caller that wants
//! to start over builds a new stream.

use crate::cipher::{cipher_state, enc_byte, enc_step, encrypt, step_state};
use crate::cipher::lemma_cipher_state_push;
use crate::key::Key;
use crate::serializable::Serializable;
use vstd::prelude::*;

verus! {

/// Encrypts byte runs and accumulates the ciphertext, which the caller
/// persists as the file's contents.
pub struct OutputStream {
    data: Vec<u8>,
    state: u64,
}

impl OutputStream {
    /// The ciphertext produced so far: the bytes to persist.
    pub closed spec fn bytes(self) -> Seq<u8> {
        self.data@
    }

    /// The live cipher state, between runs.
    pub closed spec fn state(self) -> u64 {
        self.state
    }

    /// A fresh stream: no output yet, state seeded from `key`.
    pub fn new(key: Key) -> (r: OutputStream)
        ensures
            r.bytes() == Seq::<u8>::empty(),
            r.state() == key.value,
    {
        OutputStream { data: Vec::new(), state: key.value }
    }

    /// Encrypts `input` as one run and appends the ciphertext; the state
    /// advances over the ciphertext produced.
    pub fn write_raw(&mut self, input: &Vec<u8>)
        ensures
            final(self).bytes() == old(self).bytes() + encrypt(input@, old(self).state(), 0),
            final(self).state() == cipher_state(
                encrypt(input@, old(self).state(), 0),
                old(self).state(),
            ),
    {
        let ghost s0 = self.state;
        let ghost d0 = self.data@;
        let mut i: usize = 0;
        assert(input@.skip(0) =~= input@);
        assert(self.data@.skip(d0.len() as int) =~= Seq::<u8>::empty());
        while i < input.len()
            invariant
                i <= input.len(),
                self.data@.len() == d0.len() + i,
                d0 =~= self.data@.take(d0.len() as int),
                encrypt(input@, s0, 0) == self.data@.skip(d0.len() as int) + encrypt(
                    input@.skip(i as int),
                    self.state,
                    i as int,
                ),
                self.state == cipher_state(self.data@.skip(d0.len() as int), s0),
            decreases input.len() - i,
        {
            let ghost st = self.state;
            let ghost added = self.data@.skip(d0.len() as int);
            let p = input[i];
            let (c, next) = enc_step(self.state, i, p);
            self.data.push(c);
            self.state = next;
            proof {
                assert(c == enc_byte(st, i as int, input@[i as int]));
                assert(input@.skip(i as int)[0] == input@[i as int]);
                assert(input@.skip(i as int).drop_first() =~= input@.skip(i as int + 1));
                assert(encrypt(input@.skip(i as int), st, i as int) == seq![c] + encrypt(
                    input@.skip(i as int + 1),
                    step_state(st, c),
                    i as int + 1,
                ));
                assert(self.data@.skip(d0.len() as int) =~= added.push(c));
                lemma_cipher_state_push(added, s0, c);
                assert(added + (seq![c] + encrypt(
                    input@.skip(i as int + 1),
                    self.state,
                    i as int + 1,
                )) =~= added.push(c) + encrypt(input@.skip(i as int + 1), self.state, i as int + 1));
                assert(d0 =~= self.data@.take(d0.len() as int));
            }
            i += 1;
        }
        proof {
            assert(input@.skip(input@.len() as int) =~= Seq::<u8>::empty());
            let added = self.data@.skip(d0.len() as int);
            assert(added + Seq::<u8>::empty() =~= added);
            assert(self.data@ =~= d0 + added);
        }
    }

    /// Writes one record of type `T`, delegating to the type's `serialize`:
    /// the record's ciphertext is appended and the state advances over it.
    pub fn write<T: Serializable>(&mut self, obj: &T) -> (r: Option<()>)
        ensures
            r is Some,
            final(self).bytes() == old(self).bytes() + obj.encoded(old(self).state()),
            final(self).state() == cipher_state(
                obj.encoded(old(self).state()),
                old(self).state(),
            ),
    {
        obj.serialize(self)
    }

    /// Hands the accumulated ciphertext out, consuming the stream.
    pub fn into_bytes(self) -> (r: Vec<u8>)
        ensures
            r@ == self.bytes(),
    {
        self.data
    }
}

} // verus!
