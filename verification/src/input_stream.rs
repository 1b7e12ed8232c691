//! A reading stream that decrypts everything it hands out.
//!
//! The stream owns the file's ciphertext, a read position, and a live cipher
//! state seeded from a key.  Each `read_raw` call is one cipher run:
//! keystream byte positions restart at the beginning of every call.  Reading
//! is strictly sequential — there is no seeking, because the state at byte N
//! depends on every ciphertext byte before it.

use crate::cipher::{cipher_state, dec_step, decrypt};
use crate::cipher::{lemma_cipher_state_push, lemma_decrypt_push};
use crate::key::Key;
use crate::serializable::Serializable;
use vstd::prelude::*;

verus! {

/// Decrypts the byte runs it is asked for, advancing position and cipher
/// state together.
pub struct InputStream {
    data: Vec<u8>,
    pos: usize,
    state: u64,
}

impl InputStream {
    /// The ciphertext the stream was opened on: the file's contents.
    pub closed spec fn bytes(self) -> Seq<u8> {
        self.data@
    }

    /// How many ciphertext bytes were consumed so far.
    pub closed spec fn pos(self) -> int {
        self.pos as int
    }

    /// The live cipher state, between runs.
    pub closed spec fn state(self) -> u64 {
        self.state
    }

    /// The position never runs past the ciphertext.
    pub open spec fn wf(self) -> bool {
        0 <= self.pos() <= self.bytes().len()
    }

    /// The ciphertext not consumed yet.
    pub open spec fn remaining(self) -> Seq<u8> {
        self.bytes().skip(self.pos())
    }

    /// A fresh stream over the file contents `data`, state seeded from
    /// `key`, positioned at the first byte.
    pub fn new(data: Vec<u8>, key: Key) -> (r: InputStream)
        ensures
            r.bytes() == data@,
            r.pos() == 0,
            r.state() == key.value,
            r.wf(),
    {
        InputStream { data, pos: 0, state: key.value }
    }

    /// Decrypts up to `count` bytes as one run.  At end of file fewer bytes
    /// come back than asked for, and the state advances only over the bytes
    /// actually consumed.
    #[verifier::rlimit(100)]
    #[verifier::loop_isolation(false)]
    pub fn read_raw(&mut self, count: usize) -> (r: Vec<u8>)
        requires
            old(self).wf(),
        ensures
            ({
                let n = if count as int <= old(self).remaining().len() {
                    count as int
                } else {
                    old(self).remaining().len() as int
                };
                &&& r@ == decrypt(old(self).remaining().take(n), old(self).state(), 0)
                &&& r@.len() == n
                &&& final(self).bytes() == old(self).bytes()
                &&& final(self).pos() == old(self).pos() + n
                &&& final(self).state() == cipher_state(
                    old(self).remaining().take(n),
                    old(self).state(),
                )
                &&& final(self).wf()
            }),
    {
        let ghost s0 = self.state;
        let ghost d0 = self.data@;
        let ghost p0 = self.pos as int;
        let n: usize = if count <= self.data.len() - self.pos {
            count
        } else {
            self.data.len() - self.pos
        };
        let ghost w = d0.subrange(p0, p0 + n);
        let mut r: Vec<u8> = Vec::new();
        let mut j: usize = 0;
        assert(w.take(0) =~= Seq::<u8>::empty());
        while j < n
            invariant
                j <= n,
                p0 + n <= d0.len(),
                d0.len() <= usize::MAX,
                self.data@ == d0,
                w == d0.subrange(p0, p0 + n),
                self.pos == p0 + j,
                r@.len() == j,
                r@ == decrypt(w.take(j as int), s0, 0),
                self.state == cipher_state(w.take(j as int), s0),
            decreases n - j,
        {
            let cb = self.data[self.pos];
            let (pbyte, next) = dec_step(self.state, j, cb);
            self.state = next;
            r.push(pbyte);
            self.pos = self.pos + 1;
            proof {
                assert(w[j as int] == d0[p0 + j]);
                assert(cb == w[j as int]);
                assert(w.take(j as int).push(cb) =~= w.take(j as int + 1));
                lemma_decrypt_push(w.take(j as int), s0, 0, cb);
                lemma_cipher_state_push(w.take(j as int), s0, cb);
            }
            j += 1;
        }
        proof {
            assert(w =~= old(self).remaining().take(n as int));
            assert(w.take(n as int) =~= w);
        }
        r
    }

    /// Reads one record of type `T`, delegating to the type's `deserialize`:
    /// it succeeds exactly where `T::decode_ok` holds of the remaining
    /// ciphertext, and either way the stream moves past the consumed bytes,
    /// its state advanced over them.
    pub fn read<T: Serializable>(&mut self) -> (r: Option<T>)
        requires
            old(self).wf(),
        ensures
            final(self).wf(),
            final(self).bytes() == old(self).bytes(),
            r is Some <==> T::decode_ok(old(self).remaining(), old(self).state()),
            (r matches Some(v) ==> T::decodes_to(old(self).remaining(), old(self).state(), v)),
            final(self).pos() == old(self).pos() + T::consumed(
                old(self).remaining(),
                old(self).state(),
            ),
            final(self).state() == cipher_state(
                old(self).remaining().take(T::consumed(old(self).remaining(), old(self).state())),
                old(self).state(),
            ),
    {
        T::deserialize(self)
    }
}

} // verus!
