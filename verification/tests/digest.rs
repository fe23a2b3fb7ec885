use sha1::Digest;
use shaforce::digest::{preprocessing, sha1};

fn reference_digest(input: &[u8]) -> Vec<u8> {
    let mut hash = sha1::Sha1::new();
    hash.update(input);
    hash.finalize().to_vec()
}

#[test]
fn test_sha1_empty() {
    let hash = sha1("".as_bytes());
    let hex = String::from_utf8(hash.to_hex()).unwrap();
    assert_eq!(40, hex.len());
    assert_eq!("da39a3ee5e6b4b0d3255bfef95601890afd80709", hex);
}

#[test]
fn test_preprocessing() {
    assert_eq!(0, preprocessing(Vec::new()).len() % 64);
}

#[test]
fn digest_of_abc() {
    let hash = sha1("abc".as_bytes());
    let hex = String::from_utf8(hash.to_hex()).unwrap();
    assert_eq!("a9993e364706816aba3e25717850c26c9cd0d89d", hex);
}

#[test]
fn digest_is_twenty_bytes() {
    for len in [0usize, 1, 20, 55, 56, 63, 64, 65, 200] {
        let input = vec![0x41u8; len];
        assert_eq!(20, sha1(&input).bytes().len());
    }
}

#[test]
fn framing_length_and_tail() {
    for len in [0usize, 1, 54, 55, 56, 57, 63, 64, 65, 119, 120, 200] {
        let input = vec![0x61u8; len];
        let framed = preprocessing(input);
        assert_eq!(0, framed.len() % 64);
        let bitlen = (len as u64) * 8;
        assert_eq!(&bitlen.to_be_bytes()[..], &framed[framed.len() - 8..]);
        assert_eq!(0x80, framed[len]);
    }
}

#[test]
fn matches_reference_on_fixed_inputs() {
    let cases: [&[u8]; 6] = [
        b"",
        b"a",
        b"The quick brown fox jumps over the lazy dog",
        b"0123456789012345678901234567890123456789012345678901234",
        b"01234567890123456789012345678901234567890123456789012345",
        b"\x00\xff\x80\x7f",
    ];
    for input in cases {
        assert_eq!(reference_digest(input), sha1(input).bytes().clone());
    }
}

#[test]
fn matches_reference_on_generated_inputs() {
    // A small linear congruential generator gives reproducible
    // pseudo-random inputs of many lengths, including multi-block ones.
    let mut state: u64 = 0x243F6A8885A308D3;
    for len in 0..300usize {
        let mut input = Vec::with_capacity(len);
        for _ in 0..len {
            state = state.wrapping_mul(6364136223846793005).wrapping_add(1442695040888963407);
            input.push((state >> 33) as u8);
        }
        assert_eq!(reference_digest(&input), sha1(&input).bytes().clone());
    }
}

#[test]
fn hex_is_lowercase_two_digits_per_byte() {
    let hash = sha1(b"hex check");
    let hex = hash.to_hex();
    assert_eq!(40, hex.len());
    for (i, pair) in hash.bytes().iter().enumerate() {
        let expected = format!("{pair:02x}");
        assert_eq!(expected.as_bytes(), &hex[2 * i..2 * i + 2]);
    }
}
