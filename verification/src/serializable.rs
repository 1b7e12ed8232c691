//! Length-prefixed record serialization over the cipher streams.
//!
//! A 64-bit integer is one fixed 8-byte record, in little-endian byte order —
//! the wire format is fixed explicitly instead of relying on the machine's
//! layout.  Text is a length prefix (the byte length, as a 64-bit record)
//! followed by the content bytes, each content byte written as its own
//! one-byte cipher run.  A record that transfers fewer bytes than its width
//! fails as a whole; invalid UTF-8 content fails the whole text record.

use crate::cipher::{
    cipher_state, dec_byte, decrypt, enc_byte, encrypt, lemma_cipher_state_push,
    lemma_decrypt_encrypt, lemma_encrypt_len, step_state,
};
use crate::cipher::{lemma_cipher_state_concat, lemma_encrypt_single};
use crate::input_stream::InputStream;
use crate::output_stream::OutputStream;
use vstd::prelude::*;
use vstd::utf8::{
    decode_utf8, encode_utf8, encode_utf8_decode_utf8, encode_utf8_valid_utf8, valid_utf8,
};

verus! {

/// The 8 bytes of `v`, least significant first: the wire layout of every
/// 64-bit record.
pub open spec fn le_bytes(v: u64) -> Seq<u8> {
    seq![
        (v & 0xff) as u8,
        ((v >> 8) & 0xff) as u8,
        ((v >> 16) & 0xff) as u8,
        ((v >> 24) & 0xff) as u8,
        ((v >> 32) & 0xff) as u8,
        ((v >> 40) & 0xff) as u8,
        ((v >> 48) & 0xff) as u8,
        ((v >> 56) & 0xff) as u8,
    ]
}

/// The 64-bit value 8 wire bytes stand for.
pub open spec fn le_value(b: Seq<u8>) -> u64
    recommends
        b.len() == 8,
{
    (b[0] as u64) | ((b[1] as u64) << 8) | ((b[2] as u64) << 16) | ((b[3] as u64) << 24) | (
    (b[4] as u64) << 32) | ((b[5] as u64) << 40) | ((b[6] as u64) << 48) | ((b[7] as u64) << 56)
}

/// Reading back the 8 wire bytes of `v` yields `v`.
pub proof fn lemma_le_value_le_bytes(v: u64)
    ensures
        le_value(le_bytes(v)) == v,
{
    assert((((v & 0xff) as u8) as u64 | ((((v >> 8) & 0xff) as u8) as u64) << 8 | ((((v >> 16)
        & 0xff) as u8) as u64) << 16 | ((((v >> 24) & 0xff) as u8) as u64) << 24 | ((((v >> 32)
        & 0xff) as u8) as u64) << 32 | ((((v >> 40) & 0xff) as u8) as u64) << 40 | ((((v >> 48)
        & 0xff) as u8) as u64) << 48 | ((((v >> 56) & 0xff) as u8) as u64) << 56) == v)
        by (bit_vector);
}

/// The 8 wire bytes of `v`, as a buffer.
pub fn u64_to_le_bytes(v: u64) -> (r: Vec<u8>)
    ensures
        r@ == le_bytes(v),
        r@.len() == 8,
{
    let mut r: Vec<u8> = Vec::new();
    r.push((v & 0xff) as u8);
    r.push(((v >> 8) & 0xff) as u8);
    r.push(((v >> 16) & 0xff) as u8);
    r.push(((v >> 24) & 0xff) as u8);
    r.push(((v >> 32) & 0xff) as u8);
    r.push(((v >> 40) & 0xff) as u8);
    r.push(((v >> 48) & 0xff) as u8);
    r.push(((v >> 56) & 0xff) as u8);
    proof {
        assert(r@ =~= le_bytes(v));
    }
    r
}

/// The value 8 wire bytes stand for.
pub fn u64_from_le_bytes(b: &Vec<u8>) -> (r: u64)
    requires
        b@.len() == 8,
    ensures
        r == le_value(b@),
{
    (b[0] as u64) | ((b[1] as u64) << 8) | ((b[2] as u64) << 16) | ((b[3] as u64) << 24) | (
    (b[4] as u64) << 32) | ((b[5] as u64) << 40) | ((b[6] as u64) << 48) | ((b[7] as u64) << 56)
}

/// Ciphertext of content bytes written one single-byte run apiece, from
/// state `s`: every byte sits at local index 0 of its own run.
pub open spec fn content_encoded(bytes: Seq<u8>, s: u64) -> Seq<u8>
    decreases bytes.len(),
{
    if bytes.len() == 0 {
        Seq::empty()
    } else {
        let c = enc_byte(s, 0, bytes[0]);
        seq![c] + content_encoded(bytes.drop_first(), step_state(s, c))
    }
}

/// Content bytes read back one single-byte run apiece, from state `s`.
pub open spec fn content_decoded(cipher: Seq<u8>, s: u64) -> Seq<u8>
    decreases cipher.len(),
{
    if cipher.len() == 0 {
        Seq::empty()
    } else {
        seq![dec_byte(s, 0, cipher[0])] + content_decoded(
            cipher.drop_first(),
            step_state(s, cipher[0]),
        )
    }
}

pub proof fn lemma_content_encoded_len(bytes: Seq<u8>, s: u64)
    ensures
        content_encoded(bytes, s).len() == bytes.len(),
    decreases bytes.len(),
{
    if bytes.len() > 0 {
        let c = enc_byte(s, 0, bytes[0]);
        lemma_content_encoded_len(bytes.drop_first(), step_state(s, c));
    }
}


/// Decoding one more ciphertext byte appends one more content byte.
#[verifier::rlimit(100)]
pub proof fn lemma_content_decoded_push(cipher: Seq<u8>, s: u64, x: u8)
    ensures
        content_decoded(cipher.push(x), s) == content_decoded(cipher, s).push(
            dec_byte(cipher_state(cipher, s), 0, x),
        ),
    decreases cipher.len(),
{
    if cipher.len() == 0 {
        assert(cipher.push(x)[0] == x);
        assert(cipher.push(x).drop_first() =~= Seq::<u8>::empty());
        assert(content_decoded(Seq::<u8>::empty(), step_state(s, x)) == Seq::<u8>::empty());
        assert(content_decoded(cipher.push(x), s) == seq![dec_byte(s, 0, x)]
            + Seq::<u8>::empty());
        assert(seq![dec_byte(s, 0, x)] + Seq::<u8>::empty() =~= content_decoded(cipher, s).push(
            dec_byte(s, 0, x),
        ));
    } else {
        let s2 = step_state(s, cipher[0]);
        let d0 = dec_byte(s, 0, cipher[0]);
        let p = dec_byte(cipher_state(cipher, s), 0, x);
        assert(cipher.push(x)[0] == cipher[0]);
        assert(cipher.push(x).drop_first() =~= cipher.drop_first().push(x));
        lemma_content_decoded_push(cipher.drop_first(), s2, x);
        assert(cipher_state(cipher, s) == cipher_state(cipher.drop_first(), s2));
        assert(seq![d0] + content_decoded(cipher.drop_first(), s2).push(p) =~= (seq![d0]
            + content_decoded(cipher.drop_first(), s2)).push(p));
    }
}

/// One step of the content encoding, unfolded at position `i`.
proof fn lemma_content_encoded_step(content: Seq<u8>, i: int, s: u64)
    requires
        0 <= i < content.len(),
    ensures
        content_encoded(content.skip(i), s) == seq![enc_byte(s, 0, content[i])]
            + content_encoded(content.skip(i + 1), step_state(s, enc_byte(s, 0, content[i]))),
{
    assert(content.skip(i)[0] == content[i]);
    assert(content.skip(i).drop_first() =~= content.skip(i + 1));
}

/// Reading back content that was written from the same state yields the
/// content.
pub proof fn lemma_content_round_trip(bytes: Seq<u8>, s: u64)
    ensures
        content_decoded(content_encoded(bytes, s), s) == bytes,
    decreases bytes.len(),
{
    if bytes.len() == 0 {
        assert(content_decoded(content_encoded(bytes, s), s) =~= bytes);
    } else {
        let c = enc_byte(s, 0, bytes[0]);
        let rest = content_encoded(bytes.drop_first(), step_state(s, c));
        assert(content_encoded(bytes, s) == seq![c] + rest);
        assert((seq![c] + rest)[0] == c);
        assert((seq![c] + rest).drop_first() =~= rest);
        assert(dec_byte(s, 0, c) == bytes[0]);
        lemma_content_round_trip(bytes.drop_first(), step_state(s, c));
        assert(content_decoded(content_encoded(bytes, s), s) =~= bytes);
    }
}

/// A value that can be written to and read from the cipher streams as one
/// record.
///
/// The spec functions fix the wire behaviour exactly: `encoded` is the
/// ciphertext `serialize` appends, and `decode_ok` / `decodes_to` /
/// `consumed` describe `deserialize` on *any* remaining
/// ciphertext — well-formed or not.  `lemma_round_trip` obliges every
/// implementation to prove that reading back what was written, from the same
/// state, succeeds and yields the value.
pub trait Serializable: Sized {
    /// The ciphertext `serialize` appends when the stream is at state `s`.
    spec fn encoded(&self, s: u64) -> Seq<u8>;

    /// Whether the machine could hold this value (its records fit their
    /// fixed-width length fields).
    spec fn fits(&self) -> bool;

    /// Whether `deserialize` succeeds on a stream whose remaining ciphertext
    /// is `cipher` with state `s`.
    spec fn decode_ok(cipher: Seq<u8>, s: u64) -> bool;

    /// Whether `v` is the value `deserialize` returns there.
    spec fn decodes_to(cipher: Seq<u8>, s: u64, v: Self) -> bool;

    /// The ciphertext bytes `deserialize` consumes there, whether it
    /// succeeds or fails.
    spec fn consumed(cipher: Seq<u8>, s: u64) -> int;

    /// Writes the value as one record; the stream's state advances over the
    /// ciphertext appended.
    fn serialize(&self, ostream: &mut OutputStream) -> (r: Option<()>)
        ensures
            r is Some,
            final(ostream).bytes() == old(ostream).bytes() + self.encoded(old(ostream).state()),
            final(ostream).state() == cipher_state(
                self.encoded(old(ostream).state()),
                old(ostream).state(),
            ),
    ;

    /// Reads one record.  Succeeds exactly where `decode_ok` says so; either
    /// way the stream is left past the `consumed` ciphertext bytes, its
    /// state advanced over them.
    fn deserialize(istream: &mut InputStream) -> (r: Option<Self>)
        requires
            old(istream).wf(),
        ensures
            final(istream).wf(),
            final(istream).bytes() == old(istream).bytes(),
            r is Some <==> Self::decode_ok(old(istream).remaining(), old(istream).state()),
            (r matches Some(v) ==> Self::decodes_to(
                old(istream).remaining(),
                old(istream).state(),
                v,
            )),
            0 <= Self::consumed(old(istream).remaining(), old(istream).state())
                <= old(istream).remaining().len(),
            final(istream).pos() == old(istream).pos() + Self::consumed(
                old(istream).remaining(),
                old(istream).state(),
            ),
            final(istream).state() == cipher_state(
                old(istream).remaining().take(
                    Self::consumed(old(istream).remaining(), old(istream).state()),
                ),
                old(istream).state(),
            ),
    ;

    /// The record round trip: whatever was written from state `s`, followed
    /// by anything at all, reads back as the value written, consuming
    /// exactly the record and leaving the state where writing left it.
    proof fn lemma_round_trip(&self, s: u64, rest: Seq<u8>)
        requires
            self.fits(),
        ensures
            Self::decode_ok(self.encoded(s) + rest, s),
            Self::decodes_to(self.encoded(s) + rest, s, *self),
            Self::consumed(self.encoded(s) + rest, s) == self.encoded(s).len(),
    ;
}

/// Relies on String::from_utf8: returns the string whose UTF-8 encoding is
/// exactly `bytes` when they are valid UTF-8, and an error — mapped to
/// nothing here — otherwise.
#[verifier::external_body]
fn string_from_utf8(bytes: Vec<u8>) -> (r: Option<String>)
    ensures
        r is Some <==> valid_utf8(bytes@),
        r matches Some(v) ==> v@ == decode_utf8(bytes@),
{
    String::from_utf8(bytes).ok()
}

impl Serializable for String {
    /// A length prefix — the byte length of the text, as one 8-byte run —
    /// followed by the UTF-8 content bytes, one single-byte run apiece.
    open spec fn encoded(&self, s: u64) -> Seq<u8> {
        let content = encode_utf8(self@);
        let lenc = encrypt(le_bytes(content.len() as u64), s, 0);
        lenc + content_encoded(content, cipher_state(lenc, s))
    }

    /// The byte length must fit the 64-bit length prefix.
    open spec fn fits(&self) -> bool {
        encode_utf8(self@).len() <= u64::MAX
    }

    /// Reading needs the 8-byte prefix, as many content bytes as it
    /// announces, and content that decrypts to valid UTF-8.
    open spec fn decode_ok(cipher: Seq<u8>, s: u64) -> bool {
        let n = le_value(decrypt(cipher.take(8), s, 0)) as int;
        &&& cipher.len() >= 8
        &&& cipher.len() >= 8 + n
        &&& valid_utf8(
            content_decoded(cipher.subrange(8, 8 + n), cipher_state(cipher.take(8), s)),
        )
    }

    open spec fn decodes_to(cipher: Seq<u8>, s: u64, v: Self) -> bool {
        let n = le_value(decrypt(cipher.take(8), s, 0)) as int;
        v@ == decode_utf8(
            content_decoded(cipher.subrange(8, 8 + n), cipher_state(cipher.take(8), s)),
        )
    }

    /// A short prefix eats what there is; otherwise the prefix and as many
    /// content bytes as it announces or the ciphertext holds.  On a failure
    /// past the prefix the bytes read before it stay consumed.
    open spec fn consumed(cipher: Seq<u8>, s: u64) -> int {
        if cipher.len() < 8 {
            cipher.len() as int
        } else {
            let n = le_value(decrypt(cipher.take(8), s, 0)) as int;
            if 8 + n <= cipher.len() {
                8 + n
            } else {
                cipher.len() as int
            }
        }
    }

    #[verifier::rlimit(100)]
    #[verifier::loop_isolation(false)]
    fn serialize(&self, ostream: &mut OutputStream) -> (r: Option<()>) {
        let ghost s0 = ostream.state();
        let ghost b0 = ostream.bytes();
        let bs = self.as_str().as_bytes();
        let ghost content = bs@;
        let lenbuf = u64_to_le_bytes(bs.len() as u64);
        ostream.write_raw(&lenbuf);
        let ghost lenc = encrypt(le_bytes(content.len() as u64), s0, 0);
        let ghost s1 = cipher_state(lenc, s0);
        proof {
            lemma_encrypt_len(le_bytes(content.len() as u64), s0, 0);
            assert(ostream.bytes().take(b0.len() as int + 8) =~= b0 + lenc);
            assert(ostream.bytes().skip(b0.len() as int + 8) =~= Seq::<u8>::empty());
            assert(content.skip(0) =~= content);
        }
        let mut i: usize = 0;
        while i < bs.len()
            invariant
                i <= bs.len(),
                b0.len() as int + 8 <= ostream.bytes().len(),
                ostream.bytes().take(b0.len() as int + 8) =~= b0 + lenc,
                content_encoded(content, s1) == ostream.bytes().skip(b0.len() as int + 8)
                    + content_encoded(content.skip(i as int), ostream.state()),
                ostream.state() == cipher_state(ostream.bytes().skip(b0.len() as int + 8), s1),
            decreases bs.len() - i,
        {
            let ghost st = ostream.state();
            let ghost added = ostream.bytes().skip(b0.len() as int + 8);
            let mut one: Vec<u8> = Vec::new();
            one.push(bs[i]);
            ostream.write_raw(&one);
            proof {
                let b = content[i as int];
                let c = enc_byte(st, 0, b);
                assert(one@ =~= seq![b]);
                lemma_encrypt_single(b, st, 0);
                lemma_content_encoded_step(content, i as int, st);
                assert(ostream.bytes().skip(b0.len() as int + 8) =~= added + seq![c]);
                assert(added + (seq![c] + content_encoded(
                    content.skip(i as int + 1),
                    ostream.state(),
                )) =~= (added + seq![c]) + content_encoded(
                    content.skip(i as int + 1),
                    ostream.state(),
                ));
                assert(added.push(c) =~= added + seq![c]);
                lemma_cipher_state_push(added, s1, c);
                assert(ostream.bytes().take(b0.len() as int + 8) =~= b0 + lenc);
            }
            i += 1;
        }
        proof {
            assert(content.skip(content.len() as int) =~= Seq::<u8>::empty());
            let added = ostream.bytes().skip(b0.len() as int + 8);
            assert(added + Seq::<u8>::empty() =~= added);
            assert(added == content_encoded(content, s1));
            assert(ostream.bytes() =~= (b0 + lenc) + added);
            assert((b0 + lenc) + added =~= b0 + (lenc + added));
            lemma_cipher_state_concat(lenc, added, s0);
            assert(self.encoded(s0) == lenc + added);
        }
        Some(())
    }

    #[verifier::rlimit(100)]
    #[verifier::loop_isolation(false)]
    fn deserialize(istream: &mut InputStream) -> (r: Option<String>) {
        let ghost c = old(istream).remaining();
        let ghost s = old(istream).state();
        let lbuf = istream.read_raw(8);
        if lbuf.len() < 8 {
            proof {
                assert(c.take(c.len() as int) =~= c);
            }
            return None;
        }
        let n = u64_from_le_bytes(&lbuf);
        let ghost s1 = istream.state();
        let ghost cw = c.skip(8);
        proof {
            assert(cw.take(0) =~= Seq::<u8>::empty());
        }
        let mut content: Vec<u8> = Vec::new();
        let mut k: u64 = 0;
        while k < n
            invariant
                k <= n,
                k <= cw.len(),
                istream.wf(),
                istream.bytes() == old(istream).bytes(),
                istream.pos() == old(istream).pos() + 8 + k,
                content@ == content_decoded(cw.take(k as int), s1),
                content@.len() == k,
                istream.state() == cipher_state(cw.take(k as int), s1),
            decreases n - k,
        {
            let ghost st = istream.state();
            let ghost rem = istream.remaining();
            proof {
                assert(rem =~= cw.skip(k as int));
            }
            let b = istream.read_raw(1);
            if b.len() < 1 {
                proof {
                    assert(rem.len() == 0);
                    assert(cw.len() == k);
                    assert(rem.take(0) =~= Seq::<u8>::empty());
                    assert(cw.take(k as int) =~= cw);
                    assert(c.take(8) + cw =~= c);
                    lemma_cipher_state_concat(c.take(8), cw, s);
                    assert(c.take(c.len() as int) =~= c);
                }
                return None;
            }
            proof {
                let x = cw[k as int];
                assert(rem.take(1) =~= seq![x]);
                assert(seq![x].drop_first() =~= Seq::<u8>::empty());
                assert(decrypt(seq![x], st, 0) =~= seq![dec_byte(st, 0, x)]);
                assert(b@ == seq![dec_byte(st, 0, x)]);
                assert(seq![x][0] == x);
                assert(cipher_state(Seq::<u8>::empty(), step_state(st, x)) == step_state(st, x));
                assert(cipher_state(seq![x], st) == step_state(st, x));
                lemma_content_decoded_push(cw.take(k as int), s1, x);
                assert(cw.take(k as int).push(x) =~= cw.take(k as int + 1));
                lemma_cipher_state_push(cw.take(k as int), s1, x);
            }
            let byte = b[0];
            content.push(byte);
            k = k + 1;
        }
        proof {
            assert(cw.take(n as int) =~= c.subrange(8, 8 + n as int));
            assert(c.take(8 + n as int) =~= c.take(8) + cw.take(n as int));
            lemma_cipher_state_concat(c.take(8), cw.take(n as int), s);
        }
        string_from_utf8(content)
    }

    proof fn lemma_round_trip(&self, s: u64, rest: Seq<u8>) {
        let content = encode_utf8(self@);
        let nlen = content.len() as u64;
        let lplain = le_bytes(nlen);
        let lenc = encrypt(lplain, s, 0);
        let s1 = cipher_state(lenc, s);
        let ce = content_encoded(content, s1);
        let full = (lenc + ce) + rest;
        lemma_encrypt_len(lplain, s, 0);
        lemma_content_encoded_len(content, s1);
        assert(self.encoded(s) == lenc + ce);
        assert(full.take(8) =~= lenc);
        lemma_decrypt_encrypt(lplain, s, 0);
        lemma_le_value_le_bytes(nlen);
        assert(le_value(decrypt(full.take(8), s, 0)) == nlen);
        assert(full.subrange(8, 8 + content.len() as int) =~= ce);
        lemma_content_round_trip(content, s1);
        encode_utf8_valid_utf8(self@);
        encode_utf8_decode_utf8(self@);
        assert((self.encoded(s) + rest).take(8) =~= full.take(8));
        assert(self.encoded(s).len() == 8 + content.len());
    }
}


/// Reading the payload is deterministic: any two successful reads of the
/// same remaining ciphertext from the same state see the same text.  A
/// fresh stream that replays the header therefore yields the same payload
/// every time it is opened on the same file contents.
pub proof fn lemma_text_decode_determined(cipher: Seq<u8>, s: u64, a: String, b: String)
    requires
        String::decodes_to(cipher, s, a),
        String::decodes_to(cipher, s, b),
    ensures
        a@ == b@,
{
}

} // verus!
