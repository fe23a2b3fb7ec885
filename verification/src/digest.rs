//! The digest engine: a pure 160-bit message digest over arbitrary byte
//! sequences, built from a padding/framing step and a 64-byte block
//! transform, together with a lowercase-hex rendering of the result.

use vstd::prelude::*;

verus! {

/// A message this long can be framed: its bit length fits the 64-bit length
/// field and the framed form still fits in addressable memory.
pub open spec fn fits_message(len: nat) -> bool {
    len * 8 <= u64::MAX && len + 72 <= usize::MAX
}

/// Left rotation of a 32-bit word by `n` places, `0 < n < 32`.
pub open spec fn rotl(x: u32, n: u32) -> u32
    recommends
        0 < n < 32,
{
    (x << n) | (x >> ((32 - n) as u32))
}

/// The round constant for round `i`.
pub open spec fn k_val(i: int) -> u32 {
    if i < 20 {
        0x5A827999u32
    } else if i < 40 {
        0x6ED9EBA1u32
    } else if i < 60 {
        0x8F1BBCDCu32
    } else {
        0xCA62C1D6u32
    }
}

/// The round boolean function applied to registers `b`, `c`, `d`.
pub open spec fn f_val(i: int, b: u32, c: u32, d: u32) -> u32 {
    if i < 20 {
        (b & c) | ((!b) & d)
    } else if i < 40 {
        b ^ c ^ d
    } else if i < 60 {
        (b & c) | (b & d) | (c & d)
    } else {
        b ^ c ^ d
    }
}

/// The 32-bit big-endian word starting at byte offset `j` of `b`.
pub open spec fn word_be(b: Seq<u8>, j: int) -> u32
    recommends
        0 <= j,
        j + 4 <= b.len(),
{
    (b[j] * 0x100_0000 + b[j + 1] * 0x1_0000 + b[j + 2] * 0x100 + b[j + 3]) as u32
}

/// The sixteen 32-bit big-endian words of one 64-byte block.
pub open spec fn words_of_block(b: Seq<u8>) -> Seq<u32>
    recommends
        b.len() == 64,
{
    Seq::new(16, |i: int| word_be(b, 4 * i))
}

/// The extended message schedule: words 0..16 come from the block, words
/// 16..80 mix four earlier words and rotate by one.
pub open spec fn sched(m: Seq<u32>, i: int) -> u32
    recommends
        m.len() == 16,
        0 <= i < 80,
    decreases i,
{
    if i < 16 {
        m[i]
    } else {
        rotl(sched(m, i - 3) ^ sched(m, i - 8) ^ sched(m, i - 14) ^ sched(m, i - 16), 1)
    }
}

/// One round: compute the mixed word and rotate the five registers.
pub open spec fn step(m: Seq<u32>, st: (u32, u32, u32, u32, u32), i: int) -> (u32, u32, u32, u32, u32) {
    let t = rotl(st.0, 5).wrapping_add(f_val(i, st.1, st.2, st.3)).wrapping_add(
        st.4,
    ).wrapping_add(k_val(i)).wrapping_add(sched(m, i));
    (t, st.0, rotl(st.1, 30), st.2, st.3)
}

/// The register state after the first `n` of the 80 rounds.
pub open spec fn rounds(m: Seq<u32>, st: (u32, u32, u32, u32, u32), n: int) -> (u32, u32, u32, u32, u32)
    decreases n,
{
    if n <= 0 {
        st
    } else {
        step(m, rounds(m, st, n - 1), n - 1)
    }
}

/// One block transform: run all 80 rounds, then add the result back into
/// the running state word by word (wrapping).
pub open spec fn compress(st: (u32, u32, u32, u32, u32), m: Seq<u32>) -> (u32, u32, u32, u32, u32) {
    let r = rounds(m, st, 80);
    (
        st.0.wrapping_add(r.0),
        st.1.wrapping_add(r.1),
        st.2.wrapping_add(r.2),
        st.3.wrapping_add(r.3),
        st.4.wrapping_add(r.4),
    )
}

/// The fixed initial state of the running digest.
pub open spec fn init_state() -> (u32, u32, u32, u32, u32) {
    (0x67452301u32, 0xEFCDAB89u32, 0x98BADCFEu32, 0x10325476u32, 0xC3D2E1F0u32)
}

/// The running state after the first `n` 64-byte blocks of the framed
/// message `p`.
pub open spec fn process(p: Seq<u8>, n: int) -> (u32, u32, u32, u32, u32)
    recommends
        p.len() % 64 == 0,
        64 * n <= p.len(),
    decreases n,
{
    if n <= 0 {
        init_state()
    } else {
        compress(process(p, n - 1), words_of_block(p.subrange(64 * (n - 1), 64 * n)))
    }
}

/// How many zero bytes the framing inserts after the `0x80` terminator for
/// a message of `l` bytes, so that 8 bytes of length reach a 64-byte
/// boundary exactly.
pub open spec fn zero_pad_len(l: nat) -> nat {
    let r = (l + 1) % 64;
    if r > 56 {
        (120 - r) as nat
    } else {
        (56 - r) as nat
    }
}

/// The 8 bytes of `v`, big-endian.
pub open spec fn be_bytes64(v: u64) -> Seq<u8> {
    seq![
        (v >> 56) as u8,
        (v >> 48) as u8,
        (v >> 40) as u8,
        (v >> 32) as u8,
        (v >> 24) as u8,
        (v >> 16) as u8,
        (v >> 8) as u8,
        v as u8,
    ]
}

/// The 4 bytes of `w`, big-endian.
pub open spec fn be_bytes32(w: u32) -> Seq<u8> {
    seq![(w >> 24) as u8, (w >> 16) as u8, (w >> 8) as u8, w as u8]
}

/// The framed message: the input, one `0x80` byte, zeros up to 56 mod 64,
/// and the input's bit length as a big-endian 64-bit integer.
pub open spec fn spec_pad(msg: Seq<u8>) -> Seq<u8>
    recommends
        fits_message(msg.len()),
{
    msg + seq![0x80u8] + Seq::new(zero_pad_len(msg.len()), |i: int| 0u8) + be_bytes64(
        (msg.len() * 8) as u64,
    )
}

/// The 20 output bytes of a final state: each word serialized big-endian.
pub open spec fn state_bytes(st: (u32, u32, u32, u32, u32)) -> Seq<u8> {
    be_bytes32(st.0) + be_bytes32(st.1) + be_bytes32(st.2) + be_bytes32(st.3) + be_bytes32(st.4)
}

/// The digest of an arbitrary byte sequence: frame it, run every 64-byte
/// block through the transform, serialize the final state.
pub open spec fn spec_sha1(msg: Seq<u8>) -> Seq<u8>
    recommends
        fits_message(msg.len()),
{
    state_bytes(process(spec_pad(msg), spec_pad(msg).len() as int / 64))
}

/// Law: for every message, the framed form is a whole number of 64-byte
/// blocks, is at least one block long, and its last 8 bytes are the
/// original bit length as a big-endian 64-bit integer.
pub proof fn lemma_framing(msg: Seq<u8>)
    requires
        fits_message(msg.len()),
    ensures
        spec_pad(msg).len() % 64 == 0,
        spec_pad(msg).len() >= 64,
        spec_pad(msg).len() == msg.len() + 1 + zero_pad_len(msg.len()) + 8,
        spec_pad(msg).subrange(
            spec_pad(msg).len() - 8,
            spec_pad(msg).len() as int,
        ) =~= be_bytes64((msg.len() * 8) as u64),
{
    let l = msg.len();
    let r = (l + 1) % 64;
    assert(l + 1 == 64 * ((l + 1) / 64) + r) by {
        vstd::arithmetic::div_mod::lemma_fundamental_div_mod((l + 1) as int, 64);
    }
    assert((l + 1 + zero_pad_len(l) + 8) % 64 == 0) by {
        if r > 56 {
            assert(l + 1 + zero_pad_len(l) + 8 == 64 * ((l + 1) / 64 + 2));
            vstd::arithmetic::div_mod::lemma_mod_multiples_basic(((l + 1) / 64 + 2) as int, 64);
        } else {
            assert(l + 1 + zero_pad_len(l) + 8 == 64 * ((l + 1) / 64 + 1));
            vstd::arithmetic::div_mod::lemma_mod_multiples_basic(((l + 1) / 64 + 1) as int, 64);
        }
    }
}

/// Law: every digest is exactly 20 bytes, whatever the message.
pub proof fn lemma_digest_len(msg: Seq<u8>)
    ensures
        spec_sha1(msg).len() == 20,
{
}

/// A 160-bit digest value: exactly 20 bytes.
pub struct Sha1 {
    bytes: Vec<u8>,
}

impl View for Sha1 {
    type V = Seq<u8>;

    closed spec fn view(&self) -> Seq<u8> {
        self.bytes@
    }
}

impl Sha1 {
    /// Every digest value is exactly 20 bytes.
    #[verifier::type_invariant]
    spec fn twenty_bytes(&self) -> bool {
        self.bytes@.len() == 20
    }

    /// The digest as a byte vector.
    pub fn bytes(&self) -> (r: &Vec<u8>)
        ensures
            r@ == self@,
    {
        &self.bytes
    }

    /// The digest rendered as 40 lowercase hex digits (ASCII bytes).
    pub fn to_hex(&self) -> (r: Vec<u8>)
        ensures
            r@ == hex_of(self@),
            r@.len() == 40,
    {
        proof {
            use_type_invariant(self);
        }
        hex_bytes(&self.bytes)
    }
}

/// The ASCII code of the lowercase hex digit for `d < 16`.
pub open spec fn hex_digit(d: u8) -> u8
    recommends
        d < 16,
{
    if d < 10 {
        (d + 48) as u8
    } else {
        (d + 87) as u8
    }
}

/// The lowercase hex rendering of a byte sequence: two digits per byte,
/// high nibble first.
pub open spec fn hex_of(b: Seq<u8>) -> Seq<u8> {
    Seq::new(
        2 * b.len(),
        |i: int| if i % 2 == 0 {
            hex_digit(b[i / 2] / 16)
        } else {
            hex_digit(b[i / 2] % 16)
        },
    )
}

/// Render a byte vector as lowercase hex, two digits per byte.
pub fn hex_bytes(b: &Vec<u8>) -> (r: Vec<u8>)
    requires
        b@.len() * 2 <= usize::MAX,
    ensures
        r@ == hex_of(b@),
{
    let mut out: Vec<u8> = Vec::new();
    let mut i: usize = 0;
    while i < b.len()
        invariant
            i <= b@.len(),
            b@.len() * 2 <= usize::MAX,
            out@.len() == 2 * i,
            forall|k: int| 0 <= k < out@.len() ==> out@[k] == hex_of(b@)[k],
        decreases b@.len() - i,
    {
        let byte = b[i];
        let hi = byte / 16;
        let lo = byte % 16;
        out.push(if hi < 10 { hi + 48 } else { hi + 87 });
        out.push(if lo < 10 { lo + 48 } else { lo + 87 });
        i += 1;
    }
    proof {
        assert(out@ =~= hex_of(b@));
    }
    out
}

/// Frame a message for block processing: append `0x80`, zero-fill to 56 mod
/// 64, append the bit length big-endian. The result is a whole number of
/// 64-byte blocks.
pub fn preprocessing(input: Vec<u8>) -> (r: Vec<u8>)
    requires
        fits_message(input@.len()),
    ensures
        r@ == spec_pad(input@),
        r@.len() % 64 == 0,
{
    let ghost orig = input@;
    let bitlen: u64 = (input.len() as u64) * 8;
    let mut v = input;
    v.push(0x80);
    let rem: usize = v.len() % 64;
    let pad: usize = if rem > 56 {
        120 - rem
    } else {
        56 - rem
    };
    assert(pad == zero_pad_len(orig.len()));
    let mut i: usize = 0;
    while i < pad
        invariant
            i <= pad,
            v@ =~= orig + seq![0x80u8] + Seq::new(i as nat, |j: int| 0u8),
        decreases pad - i,
    {
        v.push(0x00);
        i += 1;
        proof {
            assert(v@ =~= orig + seq![0x80u8] + Seq::new(i as nat, |j: int| 0u8));
        }
    }
    v.push((bitlen >> 56) as u8);
    v.push((bitlen >> 48) as u8);
    v.push((bitlen >> 40) as u8);
    v.push((bitlen >> 32) as u8);
    v.push((bitlen >> 24) as u8);
    v.push((bitlen >> 16) as u8);
    v.push((bitlen >> 8) as u8);
    v.push(bitlen as u8);
    proof {
        assert(v@ =~= spec_pad(orig));
        lemma_framing(orig);
    }
    v
}

/// Left rotation of a 32-bit word by `n` places, `0 < n < 32`.
fn rotate(x: u32, n: u32) -> (r: u32)
    requires
        0 < n < 32,
    ensures
        r == rotl(x, n),
{
    (x << n) | (x >> (32 - n))
}

/// Compute the digest of a byte sequence. Total: every message up to the
/// machine limits has a digest, and the digest is always 20 bytes.
pub fn sha1(input: &[u8]) -> (r: Sha1)
    requires
        fits_message(input@.len()),
    ensures
        r@ == spec_sha1(input@),
        r@.len() == 20,
{
    let padded = preprocessing(vstd::slice::slice_to_vec(input));
    let n_blocks: usize = padded.len() / 64;
    let mut h0: u32 = 0x67452301;
    let mut h1: u32 = 0xEFCDAB89;
    let mut h2: u32 = 0x98BADCFE;
    let mut h3: u32 = 0x10325476;
    let mut h4: u32 = 0xC3D2E1F0;
    let mut blk: usize = 0;
    while blk < n_blocks
        invariant
            blk <= n_blocks,
            padded@.len() == 64 * n_blocks,
            64 * n_blocks <= usize::MAX,
            (h0, h1, h2, h3, h4) == process(padded@, blk as int),
        decreases n_blocks - blk,
    {
        let ghost block = padded@.subrange(64 * blk as int, 64 * (blk + 1) as int);
        let ghost m = words_of_block(block);
        let base: usize = 64 * blk;

        // The sixteen block words, then the extended schedule.
        let mut w: Vec<u32> = Vec::new();
        let mut j: usize = 0;
        while j < 16
            invariant
                j <= 16,
                base == 64 * blk,
                blk < n_blocks,
                padded@.len() == 64 * n_blocks,
                block == padded@.subrange(64 * blk as int, 64 * (blk + 1) as int),
                m == words_of_block(block),
                w@.len() == j,
                forall|k: int| 0 <= k < j ==> w@[k] == sched(m, k),
            decreases 16 - j,
        {
            let b0 = padded[base + 4 * j];
            let b1 = padded[base + 4 * j + 1];
            let b2 = padded[base + 4 * j + 2];
            let b3 = padded[base + 4 * j + 3];
            let word: u32 = (b0 as u32) * 0x100_0000 + (b1 as u32) * 0x1_0000 + (b2 as u32) * 0x100
                + (b3 as u32);
            proof {
                assert(block[4 * j as int] == padded@[64 * blk + 4 * j]);
                assert(block[4 * j + 1] == padded@[64 * blk + 4 * j + 1]);
                assert(block[4 * j + 2] == padded@[64 * blk + 4 * j + 2]);
                assert(block[4 * j + 3] == padded@[64 * blk + 4 * j + 3]);
                assert(m[j as int] == word_be(block, 4 * j as int));
            }
            w.push(word);
            j += 1;
        }
        while j < 80
            invariant
                16 <= j <= 80,
                m == words_of_block(block),
                w@.len() == j,
                forall|k: int| 0 <= k < j ==> w@[k] == sched(m, k),
            decreases 80 - j,
        {
            let word = rotate(w[j - 3] ^ w[j - 8] ^ w[j - 14] ^ w[j - 16], 1);
            proof {
                assert(sched(m, j as int) == rotl(
                    sched(m, j - 3) ^ sched(m, j - 8) ^ sched(m, j - 14) ^ sched(m, j - 16),
                    1,
                ));
            }
            w.push(word);
            j += 1;
        }

        // The 80 rounds over the working registers.
        let mut a = h0;
        let mut b = h1;
        let mut c = h2;
        let mut d = h3;
        let mut e = h4;
        let ghost st0 = (h0, h1, h2, h3, h4);
        let mut i: usize = 0;
        while i < 80
            invariant
                i <= 80,
                w@.len() == 80,
                m == words_of_block(block),
                forall|k: int| 0 <= k < 80 ==> w@[k] == sched(m, k),
                (a, b, c, d, e) == rounds(m, st0, i as int),
            decreases 80 - i,
        {
            let f: u32;
            let k: u32;
            if i < 20 {
                f = (b & c) | ((!b) & d);
                k = 0x5A827999;
            } else if i < 40 {
                f = b ^ c ^ d;
                k = 0x6ED9EBA1;
            } else if i < 60 {
                f = (b & c) | (b & d) | (c & d);
                k = 0x8F1BBCDC;
            } else {
                f = b ^ c ^ d;
                k = 0xCA62C1D6;
            }
            let temp = rotate(a, 5).wrapping_add(f).wrapping_add(e).wrapping_add(k).wrapping_add(
                w[i],
            );
            proof {
                assert(rounds(m, st0, i + 1) == step(m, rounds(m, st0, i as int), i as int));
            }
            e = d;
            d = c;
            c = rotate(b, 30);
            b = a;
            a = temp;
            i += 1;
        }
        h0 = h0.wrapping_add(a);
        h1 = h1.wrapping_add(b);
        h2 = h2.wrapping_add(c);
        h3 = h3.wrapping_add(d);
        h4 = h4.wrapping_add(e);
        proof {
            assert((a, b, c, d, e) == rounds(m, st0, 80));
            assert(process(padded@, blk + 1) == compress(process(padded@, blk as int), m));
        }
        blk += 1;
    }
    let mut out: Vec<u8> = Vec::new();
    out.push((h0 >> 24) as u8);
    out.push((h0 >> 16) as u8);
    out.push((h0 >> 8) as u8);
    out.push(h0 as u8);
    out.push((h1 >> 24) as u8);
    out.push((h1 >> 16) as u8);
    out.push((h1 >> 8) as u8);
    out.push(h1 as u8);
    out.push((h2 >> 24) as u8);
    out.push((h2 >> 16) as u8);
    out.push((h2 >> 8) as u8);
    out.push(h2 as u8);
    out.push((h3 >> 24) as u8);
    out.push((h3 >> 16) as u8);
    out.push((h3 >> 8) as u8);
    out.push(h3 as u8);
    out.push((h4 >> 24) as u8);
    out.push((h4 >> 16) as u8);
    out.push((h4 >> 8) as u8);
    out.push(h4 as u8);
    proof {
        assert(padded@.len() as int / 64 == n_blocks as int);
        assert(out@ =~= state_bytes((h0, h1, h2, h3, h4)));
    }
    Sha1 { bytes: out }
}

} // verus!
