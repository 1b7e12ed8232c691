//! The self-synchronizing keystream cipher.
//!
//! A 64-bit state is stepped once per byte.  The keystream byte is taken from
//! the stepped state at a byte position that cycles with the byte's local
//! index inside one transform call (a "run"), and the state is then fed back
//! with the *ciphertext* byte.  Because both sides feed the ciphertext back,
//! encryption and decryption advance the state identically, which is what
//! makes the construction self-synchronizing — and strictly sequential: byte
//! N of a file can only be decrypted after bytes 0..N-1 were processed with
//! the same starting key.

use vstd::prelude::*;

verus! {

/// Starting value of the key derivation fold.
pub const INITIAL: u64 = 0x3D9CA05D5422EDE9;
/// Multiplier applied to the ciphertext byte on state feedback, and to each
/// password byte during key derivation.
pub const SCRAMBLE: u64 = 0xECD96C09EEFC5F6D;
/// Multiplier applied to the state before each keystream byte is drawn, and
/// to the accumulator during key derivation.
pub const MULT: u64 = 709;

/// The keystream byte drawn from (already stepped) state `s` for the byte at
/// local index `i` of a run: byte position `i mod 8` of `s`.
pub open spec fn keystream_byte(s: u64, i: int) -> u8 {
    (((s >> (((i % 8) * 8) as u64)) & 0xff) as u8)
}

/// Ciphertext byte produced for plaintext byte `p` at local index `i` when
/// the state between bytes is `s`.
pub open spec fn enc_byte(s: u64, i: int, p: u8) -> u8 {
    p.wrapping_add(keystream_byte(s.wrapping_mul(MULT), i))
}

/// Plaintext byte recovered from ciphertext byte `c` at local index `i` when
/// the state between bytes is `s`.
pub open spec fn dec_byte(s: u64, i: int, c: u8) -> u8 {
    c.wrapping_sub(keystream_byte(s.wrapping_mul(MULT), i))
}

/// State after one byte whose *ciphertext* is `c` was processed with the
/// between-bytes state `s`.  The same in both directions.
pub open spec fn step_state(s: u64, c: u8) -> u64 {
    s.wrapping_mul(MULT).wrapping_add((c as u64).wrapping_mul(SCRAMBLE))
}

/// Ciphertext of `plain` encrypted from state `s`, the first byte sitting at
/// local index `i` of its run.
pub open spec fn encrypt(plain: Seq<u8>, s: u64, i: int) -> Seq<u8>
    decreases plain.len(),
{
    if plain.len() == 0 {
        Seq::empty()
    } else {
        let c = enc_byte(s, i, plain[0]);
        seq![c] + encrypt(plain.drop_first(), step_state(s, c), i + 1)
    }
}

/// Plaintext of `cipher` decrypted from state `s`, the first byte sitting at
/// local index `i` of its run.
pub open spec fn decrypt(cipher: Seq<u8>, s: u64, i: int) -> Seq<u8>
    decreases cipher.len(),
{
    if cipher.len() == 0 {
        Seq::empty()
    } else {
        seq![dec_byte(s, i, cipher[0])] + decrypt(
            cipher.drop_first(),
            step_state(s, cipher[0]),
            i + 1,
        )
    }
}

/// State after the ciphertext bytes `cipher` passed through a stream that was
/// at state `s`.  Feedback uses only the ciphertext, so this is the state
/// evolution of encryption and of decryption alike, and it does not depend on
/// how the bytes were split into runs.
pub open spec fn cipher_state(cipher: Seq<u8>, s: u64) -> u64
    decreases cipher.len(),
{
    if cipher.len() == 0 {
        s
    } else {
        cipher_state(cipher.drop_first(), step_state(s, cipher[0]))
    }
}

/// One encryption step: the ciphertext byte for plaintext `p` at local index
/// `i`, and the state that follows it.
pub fn enc_step(state: u64, i: usize, p: u8) -> (r: (u8, u64))
    ensures
        r.0 == enc_byte(state, i as int, p),
        r.1 == step_state(state, r.0),
{
    let stepped = state.wrapping_mul(MULT);
    let sh: u64 = ((i % 8) as u64) * 8;
    let x: u8 = ((stepped >> sh) & 0xff) as u8;
    let c: u8 = p.wrapping_add(x);
    proof {
        assert((i % 8) as int == (i as int) % 8);
        assert(x == keystream_byte(stepped, i as int));
    }
    (c, stepped.wrapping_add((c as u64).wrapping_mul(SCRAMBLE)))
}

/// One decryption step: the plaintext byte recovered from ciphertext `c` at
/// local index `i`, and the state that follows it.
pub fn dec_step(state: u64, i: usize, c: u8) -> (r: (u8, u64))
    ensures
        r.0 == dec_byte(state, i as int, c),
        r.1 == step_state(state, c),
{
    let stepped = state.wrapping_mul(MULT);
    let sh: u64 = ((i % 8) as u64) * 8;
    let x: u8 = ((stepped >> sh) & 0xff) as u8;
    proof {
        assert((i % 8) as int == (i as int) % 8);
        assert(x == keystream_byte(stepped, i as int));
    }
    (c.wrapping_sub(x), stepped.wrapping_add((c as u64).wrapping_mul(SCRAMBLE)))
}

pub proof fn lemma_encrypt_len(plain: Seq<u8>, s: u64, i: int)
    ensures
        encrypt(plain, s, i).len() == plain.len(),
    decreases plain.len(),
{
    if plain.len() > 0 {
        let c = enc_byte(s, i, plain[0]);
        lemma_encrypt_len(plain.drop_first(), step_state(s, c), i + 1);
    }
}

/// Appending one ciphertext byte advances the state by one step.
pub proof fn lemma_cipher_state_push(cipher: Seq<u8>, s: u64, c: u8)
    ensures
        cipher_state(cipher.push(c), s) == step_state(cipher_state(cipher, s), c),
    decreases cipher.len(),
{
    if cipher.len() == 0 {
        assert(cipher.push(c)[0] == c);
        assert(cipher.push(c).drop_first() =~= Seq::<u8>::empty());
        assert(cipher_state(cipher.push(c), s) == cipher_state(
            Seq::<u8>::empty(),
            step_state(s, c),
        ));
        assert(cipher_state(cipher.push(c), s) == step_state(s, c));
        assert(cipher_state(cipher, s) == s);
    } else {
        assert(cipher.push(c)[0] == cipher[0]);
        assert(cipher.push(c).drop_first() =~= cipher.drop_first().push(c));
        lemma_cipher_state_push(cipher.drop_first(), step_state(s, cipher[0]), c);
        assert(cipher_state(cipher.push(c), s) == cipher_state(
            cipher.drop_first().push(c),
            step_state(s, cipher[0]),
        ));
        assert(cipher_state(cipher, s) == cipher_state(
            cipher.drop_first(),
            step_state(s, cipher[0]),
        ));
    }
}

/// The state after two ciphertext stretches is the state after the second,
/// started from the state after the first.
pub proof fn lemma_cipher_state_concat(a: Seq<u8>, b: Seq<u8>, s: u64)
    ensures
        cipher_state(a + b, s) == cipher_state(b, cipher_state(a, s)),
    decreases a.len(),
{
    if a.len() == 0 {
        assert(a + b =~= b);
    } else {
        assert((a + b).drop_first() =~= a.drop_first() + b);
        lemma_cipher_state_concat(a.drop_first(), b, step_state(s, a[0]));
    }
}

/// A one-byte run, written out: its ciphertext is the one encrypted byte and
/// the state steps once over it.
pub proof fn lemma_encrypt_single(b: u8, s: u64, i: int)
    ensures
        encrypt(seq![b], s, i) == seq![enc_byte(s, i, b)],
        cipher_state(seq![enc_byte(s, i, b)], s) == step_state(s, enc_byte(s, i, b)),
{
    let c = enc_byte(s, i, b);
    assert(seq![b][0] == b);
    assert(seq![b].drop_first() =~= Seq::<u8>::empty());
    assert(encrypt(Seq::<u8>::empty(), step_state(s, c), i + 1) == Seq::<u8>::empty());
    assert(encrypt(seq![b], s, i) =~= seq![c]);
    assert(seq![c][0] == c);
    assert(seq![c].drop_first() =~= Seq::<u8>::empty());
    assert(cipher_state(Seq::<u8>::empty(), step_state(s, c)) == step_state(s, c));
}

/// Decrypting one more ciphertext byte appends one more plaintext byte,
/// computed from the state the earlier bytes left behind.
pub proof fn lemma_decrypt_push(cipher: Seq<u8>, s: u64, i: int, x: u8)
    ensures
        decrypt(cipher.push(x), s, i) == decrypt(cipher, s, i).push(
            dec_byte(cipher_state(cipher, s), i + cipher.len(), x),
        ),
    decreases cipher.len(),
{
    if cipher.len() == 0 {
        assert(cipher.push(x)[0] == x);
        assert(cipher.push(x).drop_first() =~= Seq::<u8>::empty());
        assert(decrypt(Seq::<u8>::empty(), step_state(s, x), i + 1) == Seq::<u8>::empty());
        assert(decrypt(cipher.push(x), s, i) == seq![dec_byte(s, i, x)] + Seq::<u8>::empty());
        assert(seq![dec_byte(s, i, x)] + Seq::<u8>::empty() =~= decrypt(cipher, s, i).push(
            dec_byte(s, i, x),
        ));
    } else {
        let s2 = step_state(s, cipher[0]);
        let d0 = dec_byte(s, i, cipher[0]);
        let p = dec_byte(cipher_state(cipher, s), i + cipher.len(), x);
        assert(cipher.push(x)[0] == cipher[0]);
        assert(cipher.push(x).drop_first() =~= cipher.drop_first().push(x));
        lemma_decrypt_push(cipher.drop_first(), s2, i + 1, x);
        assert(cipher_state(cipher, s) == cipher_state(cipher.drop_first(), s2));
        assert(seq![d0] + decrypt(cipher.drop_first(), s2, i + 1).push(p) =~= (seq![d0]
            + decrypt(cipher.drop_first(), s2, i + 1)).push(p));
    }
}

/// Decrypting what was encrypted, from the same state and run position,
/// returns the plaintext, and leaves the stream state where encryption left
/// it.  This is the heart of every round-trip property of the library.
pub proof fn lemma_decrypt_encrypt(plain: Seq<u8>, s: u64, i: int)
    ensures
        decrypt(encrypt(plain, s, i), s, i) == plain,
    decreases plain.len(),
{
    if plain.len() == 0 {
        assert(decrypt(encrypt(plain, s, i), s, i) =~= plain);
    } else {
        let c = enc_byte(s, i, plain[0]);
        let rest = encrypt(plain.drop_first(), step_state(s, c), i + 1);
        assert(encrypt(plain, s, i) == seq![c] + rest);
        assert((seq![c] + rest)[0] == c);
        assert((seq![c] + rest).drop_first() =~= rest);
        assert(dec_byte(s, i, c) == plain[0]);
        lemma_decrypt_encrypt(plain.drop_first(), step_state(s, c), i + 1);
        assert(decrypt(encrypt(plain, s, i), s, i) =~= plain);
    }
}

} // verus!
