use encrypted_notes::input_stream::InputStream;
use encrypted_notes::key::Key;
use encrypted_notes::output_stream::OutputStream;
use encrypted_notes::serializable::u64_to_le_bytes;

const INITIAL: u64 = 0x3D9CA05D5422EDE9;
const SCRAMBLE: u64 = 0xECD96C09EEFC5F6D;
const MULT: u64 = 709;

#[test]
fn test_key1() {
    let key1 = Key::from("123456");
    let key2 = Key::from("123456");
    let key3 = Key::from("1234567");
    let key4 = Key::from("123457");

    assert_eq!(key1, key2);
    assert_ne!(key1, key3);
    assert_ne!(key1, key4);
    assert_ne!(key2, key3);
    assert_ne!(key2, key4);
    assert_ne!(key3, key4);
}

#[test]
fn test_stream1() {
    let key = Key::from("123456");
    let key2: Key;

    let file: Vec<u8>;
    {
        let mut ostream = OutputStream::new(key);
        ostream.write(&key).unwrap();
        file = ostream.into_bytes();
    }

    {
        let mut istream = InputStream::new(file, key);
        key2 = istream.read().unwrap();
    }

    assert_eq!(key, key2);
}

#[test]
fn test_stream2() {
    let key1 = Key::from("123456");
    let key2 = Key::from("654321");
    let key3: Key;

    let file: Vec<u8>;
    {
        let mut ostream = OutputStream::new(key1);
        ostream.write(&key1).unwrap();
        file = ostream.into_bytes();
    }

    {
        let mut istream = InputStream::new(file, key2);
        key3 = istream.read().unwrap();
    }

    assert_ne!(key1, key2);
    assert_ne!(key1, key3);
    assert_ne!(key2, key3);
}

#[test]
fn test_stream3() {
    let msg: String = String::from("Hello, world!");
    let msg2: String;

    let file: Vec<u8>;
    {
        let mut ostream = OutputStream::new(Key::from("123456"));
        ostream.write(&msg).unwrap();
        file = ostream.into_bytes();
    }

    {
        let mut istream = InputStream::new(file, Key::from("123456"));
        msg2 = istream.read().unwrap();
    }

    assert_eq!(msg, msg2);
}

// The derivation formula, recomputed independently: value starts at the
// initial constant and folds each password byte with multiply-add wraparound
// arithmetic.
#[test]
fn derive_matches_formula() {
    let password = "123456";
    let mut expected: u64 = INITIAL;
    for c in password.bytes() {
        expected = expected
            .wrapping_mul(MULT)
            .wrapping_add((c as u64).wrapping_mul(SCRAMBLE));
    }
    assert_eq!(Key::from(password).value, expected);
}

// The empty password folds nothing: the key is the initial constant itself.
#[test]
fn derive_empty_password() {
    assert_eq!(Key::from("").value, INITIAL);
}

// Distinct passwords from a fixed sample set all derive distinct keys.
#[test]
fn derive_distinct_samples() {
    let samples = ["", "a", "b", "ab", "ba", "secret", "secret ", "Secret", "123456", "654321"];
    let keys: Vec<u64> = samples.iter().map(|p| Key::from(p).value).collect();
    for i in 0..keys.len() {
        for j in 0..keys.len() {
            if i != j {
                assert_ne!(keys[i], keys[j], "collision between {:?} and {:?}", samples[i], samples[j]);
            }
        }
    }
}

// The cipher formula, recomputed independently for one run: state is
// multiplied, a keystream byte is drawn from byte position i mod 8, the
// ciphertext byte is plaintext plus keystream, and the state absorbs the
// ciphertext byte.
#[test]
fn encrypt_matches_formula() {
    let plain: Vec<u8> = vec![1, 2, 3, 250, 0, 77, 200, 145, 9, 10];
    let key = Key::from("stream-check");

    let mut ostream = OutputStream::new(key);
    ostream.write_raw(&plain);
    let cipher = ostream.into_bytes();

    let mut state = key.value;
    let mut expected: Vec<u8> = Vec::new();
    for (i, p) in plain.iter().enumerate() {
        state = state.wrapping_mul(MULT);
        let x = ((state >> ((i & 7) << 3)) & 0xff) as u8;
        let c = p.wrapping_add(x);
        expected.push(c);
        state = state.wrapping_add((c as u64).wrapping_mul(SCRAMBLE));
    }
    assert_eq!(cipher, expected);
}

// One long run decrypts back to its plaintext, byte for byte.
#[test]
fn raw_round_trip() {
    let plain: Vec<u8> = (0..=255u8).chain(0..=255u8).collect();
    let key = Key::from("raw");

    let mut ostream = OutputStream::new(key);
    ostream.write_raw(&plain);
    let cipher = ostream.into_bytes();
    assert_eq!(cipher.len(), plain.len());

    let mut istream = InputStream::new(cipher, key);
    let back = istream.read_raw(plain.len());
    assert_eq!(back, plain);
}

// Reading past end of file returns only what is there, and a later read
// returns nothing.
#[test]
fn read_raw_partial_at_eof() {
    let key = Key::from("eof");
    let mut ostream = OutputStream::new(key);
    ostream.write_raw(&vec![10, 20, 30]);
    let mut istream = InputStream::new(ostream.into_bytes(), key);

    let first = istream.read_raw(10);
    assert_eq!(first.len(), 3);
    let second = istream.read_raw(1);
    assert_eq!(second.len(), 0);
}

// A file shorter than a whole 64-bit record fails that record.
#[test]
fn truncated_key_record_fails() {
    let key = Key::from("short");
    let mut istream = InputStream::new(vec![1, 2, 3], key);
    let r: Option<Key> = istream.read();
    assert!(r.is_none());
}

// Text that announces more content than the file holds fails as a whole.
#[test]
fn truncated_text_record_fails() {
    let key = Key::from("truncated");
    let mut ostream = OutputStream::new(key);
    let prefix = u64_to_le_bytes(5);
    ostream.write_raw(&prefix);
    ostream.write_raw(&vec![b'h']);
    ostream.write_raw(&vec![b'i']);
    let mut istream = InputStream::new(ostream.into_bytes(), key);
    let r: Option<String> = istream.read();
    assert!(r.is_none());
}

// Content that decrypts to invalid UTF-8 fails the text record.
#[test]
fn invalid_utf8_text_fails() {
    let key = Key::from("utf8");
    let mut ostream = OutputStream::new(key);
    let prefix = u64_to_le_bytes(2);
    ostream.write_raw(&prefix);
    ostream.write_raw(&vec![0xff]);
    ostream.write_raw(&vec![0xfe]);
    let mut istream = InputStream::new(ostream.into_bytes(), key);
    let r: Option<String> = istream.read();
    assert!(r.is_none());
}

// Text round trips: empty, plain, and multi-byte UTF-8 content.
#[test]
fn text_round_trip_cases() {
    let cases = ["", "x", "Hello, world!", "héllo wörld", "日本語のテキスト", "mixed 🌍 content ñ"];
    for case in cases.iter() {
        let key = Key::from("text-case");
        let msg = String::from(*case);
        let mut ostream = OutputStream::new(key);
        ostream.write(&msg).unwrap();
        let mut istream = InputStream::new(ostream.into_bytes(), key);
        let back: String = istream.read().unwrap();
        assert_eq!(back, msg);
    }
}

// Two records in sequence come back in order through one stream pair.
#[test]
fn two_records_in_sequence() {
    let key = Key::from("sequence");
    let first = Key::from("payload-key");
    let second = String::from("after the key");

    let mut ostream = OutputStream::new(key);
    ostream.write(&first).unwrap();
    ostream.write(&second).unwrap();

    let mut istream = InputStream::new(ostream.into_bytes(), key);
    let got_first: Key = istream.read().unwrap();
    let got_second: String = istream.read().unwrap();
    assert_eq!(got_first, first);
    assert_eq!(got_second, second);
}
