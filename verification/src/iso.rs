//! Four readings of one 1024-bit block: sixteen `u64` words, 128 bytes,
//! 256 nibbles and 512 two-bit sign values, with the maps between them.
use vstd::prelude::*;
use crate::sign2::{pair_code, Sign2, Sign2Block, BLOCK_BYTES, VALUES_PER_BLOCK};

verus! {

/// Byte `j` (0 = most significant) of a word, in big-endian order.
pub open spec fn word_byte(w: u64, j: int) -> u8 {
    ((w >> ((56 - 8 * j) as u64)) & 0xff) as u8
}

/// The word whose big-endian bytes are `b0 .. b7`.
pub open spec fn be_word(b0: u8, b1: u8, b2: u8, b3: u8, b4: u8, b5: u8, b6: u8, b7: u8) -> u64 {
    ((b0 as u64) << 56u64) | ((b1 as u64) << 48u64) | ((b2 as u64) << 40u64) | ((b3 as u64)
        << 32u64) | ((b4 as u64) << 24u64) | ((b5 as u64) << 16u64) | ((b6 as u64) << 8u64) | (
    b7 as u64)
}

/// The big-endian byte image of a sequence of sixteen words.
pub open spec fn spec_words_to_bytes(w: Seq<u64>) -> Seq<u8> {
    Seq::new(128, |k: int| word_byte(w[k / 8], k % 8))
}

/// Word `i` of a 128-byte block read in big-endian order.
pub open spec fn block_word(b: Seq<u8>, i: int) -> u64 {
    be_word(
        b[8 * i],
        b[8 * i + 1],
        b[8 * i + 2],
        b[8 * i + 3],
        b[8 * i + 4],
        b[8 * i + 5],
        b[8 * i + 6],
        b[8 * i + 7],
    )
}

/// The sixteen words that a 128-byte block spells in big-endian order.
pub open spec fn spec_bytes_to_words(b: Seq<u8>) -> Seq<u64> {
    Seq::new(16, |i: int| block_word(b, i))
}

/// A word is rebuilt from its eight big-endian bytes.
pub proof fn lemma_word_from_its_bytes(w: u64)
    ensures
        be_word(
            word_byte(w, 0),
            word_byte(w, 1),
            word_byte(w, 2),
            word_byte(w, 3),
            word_byte(w, 4),
            word_byte(w, 5),
            word_byte(w, 6),
            word_byte(w, 7),
        ) == w,
{
    assert(be_word(
        ((w >> 56u64) & 0xff) as u8,
        ((w >> 48u64) & 0xff) as u8,
        ((w >> 40u64) & 0xff) as u8,
        ((w >> 32u64) & 0xff) as u8,
        ((w >> 24u64) & 0xff) as u8,
        ((w >> 16u64) & 0xff) as u8,
        ((w >> 8u64) & 0xff) as u8,
        ((w >> 0u64) & 0xff) as u8,
    ) == w) by (bit_vector);
}

/// The eight big-endian bytes of a word built from bytes are those bytes.
pub proof fn lemma_bytes_of_word(b0: u8, b1: u8, b2: u8, b3: u8, b4: u8, b5: u8, b6: u8, b7: u8)
    by (bit_vector)
    ensures
        word_byte(be_word(b0, b1, b2, b3, b4, b5, b6, b7), 0) == b0,
        word_byte(be_word(b0, b1, b2, b3, b4, b5, b6, b7), 1) == b1,
        word_byte(be_word(b0, b1, b2, b3, b4, b5, b6, b7), 2) == b2,
        word_byte(be_word(b0, b1, b2, b3, b4, b5, b6, b7), 3) == b3,
        word_byte(be_word(b0, b1, b2, b3, b4, b5, b6, b7), 4) == b4,
        word_byte(be_word(b0, b1, b2, b3, b4, b5, b6, b7), 5) == b5,
        word_byte(be_word(b0, b1, b2, b3, b4, b5, b6, b7), 6) == b6,
        word_byte(be_word(b0, b1, b2, b3, b4, b5, b6, b7), 7) == b7,
{
}

/// Reading sixteen words as bytes and back gives the same words.
pub proof fn lemma_words_bytes_roundtrip(w: Seq<u64>)
    requires
        w.len() == 16,
    ensures
        spec_bytes_to_words(spec_words_to_bytes(w)) == w,
{
    let b = spec_words_to_bytes(w);
    assert forall|i: int| 0 <= i < 16 implies #[trigger] block_word(b, i) == w[i] by {
        assert((8 * i) / 8 == i);
        assert((8 * i + 1) / 8 == i && (8 * i + 1) % 8 == 1);
        assert((8 * i + 2) / 8 == i && (8 * i + 2) % 8 == 2);
        assert((8 * i + 3) / 8 == i && (8 * i + 3) % 8 == 3);
        assert((8 * i + 4) / 8 == i && (8 * i + 4) % 8 == 4);
        assert((8 * i + 5) / 8 == i && (8 * i + 5) % 8 == 5);
        assert((8 * i + 6) / 8 == i && (8 * i + 6) % 8 == 6);
        assert((8 * i + 7) / 8 == i && (8 * i + 7) % 8 == 7);
        lemma_word_from_its_bytes(w[i]);
    }
    assert(spec_bytes_to_words(b) =~= w);
}

/// Reading 128 bytes as words and back gives the same bytes.
pub proof fn lemma_bytes_words_roundtrip(b: Seq<u8>)
    requires
        b.len() == 128,
    ensures
        spec_words_to_bytes(spec_bytes_to_words(b)) == b,
{
    let w = spec_bytes_to_words(b);
    assert forall|k: int| 0 <= k < 128 implies #[trigger] word_byte(w[k / 8], k % 8) == b[k] by {
        let i = k / 8;
        lemma_bytes_of_word(
            b[8 * i],
            b[8 * i + 1],
            b[8 * i + 2],
            b[8 * i + 3],
            b[8 * i + 4],
            b[8 * i + 5],
            b[8 * i + 6],
            b[8 * i + 7],
        );
        assert(k == 8 * i + k % 8);
    }
    assert(spec_words_to_bytes(w) =~= b);
}

/// Splits a byte into its high and low nibble.
pub fn byte_to_nibbles(b: u8) -> (r: (u8, u8))
    ensures
        r.0 == b / 16,
        r.1 == b % 16,
{
    assert(b >> 4 == b / 16 && b & 0x0f == b % 16) by (bit_vector);
    (b >> 4, b & 0x0f)
}

/// Joins a high and a low nibble into a byte; only the low four bits of each count.
pub fn nibbles_to_byte(hi: u8, lo: u8) -> (r: u8)
    ensures
        r == (hi % 16) * 16 + lo % 16,
{
    assert(((hi & 0x0f) << 4) | (lo & 0x0f) == (hi % 16) * 16 + lo % 16) by (bit_vector);
    ((hi & 0x0f) << 4) | (lo & 0x0f)
}

/// One nibble as two sign values: bits 0..1 give the first, bits 2..3 the second.
pub fn nibble_to_sign2_pair(n: u8) -> (r: [Sign2; 2])
    ensures
        r@[0].code() == n % 4,
        r@[1].code() == (n / 4) % 4,
{
    assert(n & 0b11 == n % 4 && (n >> 2) & 0b11 == (n / 4) % 4) by (bit_vector);
    [Sign2::from_bits(n & 0b11), Sign2::from_bits((n >> 2) & 0b11)]
}

/// Two sign values as one nibble; inverse of [`nibble_to_sign2_pair`].
pub fn sign2_pair_to_nibble(p: [Sign2; 2]) -> (r: u8)
    ensures
        r == p@[0].code() + 4 * p@[1].code(),
{
    let a = p[0].to_bits();
    let b = p[1].to_bits();
    assert(a < 4 && b < 4 ==> (a & 0b11) | ((b & 0b11) << 2) == a + 4 * b) by (bit_vector);
    (a & 0b11) | ((b & 0b11) << 2)
}

/// Sixteen words as 128 bytes, each word in big-endian order.
pub fn words_to_bytes(words: &[u64; 16]) -> (buf: [u8; BLOCK_BYTES])
    ensures
        buf@ == spec_words_to_bytes(words@),
{
    let mut buf = [0u8; BLOCK_BYTES];
    for i in 0..16
        invariant
            buf@.len() == 128,
            forall|k: int| 0 <= k < 8 * i ==> buf@[k] == word_byte(words@[k / 8], k % 8),
    {
        let w = words[i];
        for j in 0..8
            invariant
                0 <= i < 16,
                w == words@[i as int],
                buf@.len() == 128,
                forall|k: int| 0 <= k < 8 * i ==> buf@[k] == word_byte(words@[k / 8], k % 8),
                forall|jj: int| 0 <= jj < j ==> buf@[8 * i + jj] == word_byte(w, jj),
        {
            buf[i * 8 + j] = ((w >> (56 - j * 8) as u64) & 0xff) as u8;
        }
        assert forall|k: int| 0 <= k < 8 * (i + 1) implies buf@[k] == word_byte(
            words@[k / 8],
            k % 8,
        ) by {
            if k >= 8 * i {
                assert(k == 8 * i + (k - 8 * i));
                assert(k / 8 == i && k % 8 == k - 8 * i);
            }
        }
    }
    assert(buf@ =~= spec_words_to_bytes(words@));
    buf
}

/// Eight consecutive bytes starting at `8 * i`, read as one big-endian word.
fn word_at(buf: &[u8; BLOCK_BYTES], i: usize) -> (w: u64)
    requires
        i < 16,
    ensures
        w == block_word(buf@, i as int),
{
    let mut w = 0u64;
    let ghost b = buf@;
    let base = i * 8;
    w = (w << 8u64) | (buf[base] as u64);
    w = (w << 8u64) | (buf[base + 1] as u64);
    w = (w << 8u64) | (buf[base + 2] as u64);
    w = (w << 8u64) | (buf[base + 3] as u64);
    w = (w << 8u64) | (buf[base + 4] as u64);
    w = (w << 8u64) | (buf[base + 5] as u64);
    w = (w << 8u64) | (buf[base + 6] as u64);
    w = (w << 8u64) | (buf[base + 7] as u64);
    let ghost (b0, b1, b2, b3, b4, b5, b6, b7) = (
        b[8 * i],
        b[8 * i + 1],
        b[8 * i + 2],
        b[8 * i + 3],
        b[8 * i + 4],
        b[8 * i + 5],
        b[8 * i + 6],
        b[8 * i + 7],
    );
    assert(((((((((((((((((0u64 << 8u64) | (b0 as u64)) << 8u64) | (b1 as u64)) << 8u64) | (
    b2 as u64)) << 8u64) | (b3 as u64)) << 8u64) | (b4 as u64)) << 8u64) | (b5 as u64)) << 8u64)
        | (b6 as u64)) << 8u64) | (b7 as u64)) == be_word(b0, b1, b2, b3, b4, b5, b6, b7))
        by (bit_vector);
    w
}

/// 128 bytes as sixteen words, each read in big-endian order.
pub fn bytes_to_words(buf: &[u8; BLOCK_BYTES]) -> (words: [u64; 16])
    ensures
        words@ == spec_bytes_to_words(buf@),
{
    let mut words = [0u64; 16];
    for i in 0..16
        invariant
            words@.len() == 16,
            forall|k: int| 0 <= k < i ==> words@[k] == block_word(buf@, k),
    {
        let w = word_at(buf, i);
        words[i] = w;
    }
    assert(words@ =~= spec_bytes_to_words(buf@));
    words
}

/// A byte is the sum of its four two-bit fields, lowest first.
pub proof fn lemma_byte_from_pairs(b: u8)
    by (bit_vector)
    ensures
        b == pair_code(b, 0) + 4 * pair_code(b, 1) + 16 * pair_code(b, 2) + 64 * pair_code(b, 3),
        pair_code(b, 0) == (b % 16) % 4,
        pair_code(b, 1) == ((b % 16) / 4) % 4,
        pair_code(b, 2) == (b / 16) % 4,
        pair_code(b, 3) == ((b / 16) / 4) % 4,
{
}

/// 128 bytes as a block of 512 sign values: byte `k` holds values `4k .. 4k+3`,
/// low nibble first and the low two bits of each nibble first.
pub fn bytes_to_sign2_block(buf: &[u8; BLOCK_BYTES]) -> (blk: Sign2Block)
    ensures
        blk.bytes() == buf@,
        blk.0@ == spec_bytes_to_words(buf@),
{
    let mut blk = Sign2Block::zero();
    let mut idx: usize = 0;
    for k in 0..BLOCK_BYTES
        invariant
            idx == 4 * k,
            forall|i: int| 0 <= i < idx ==> #[trigger] blk.code_at(i) == pair_code(buf@[i / 4], i % 4),
    {
        let b = buf[k];
        let (hi, lo) = byte_to_nibbles(b);
        let p_lo = nibble_to_sign2_pair(lo);
        let p_hi = nibble_to_sign2_pair(hi);
        proof {
            lemma_byte_from_pairs(b);
        }
        blk.set(idx, p_lo[0]);
        blk.set(idx + 1, p_lo[1]);
        blk.set(idx + 2, p_hi[0]);
        blk.set(idx + 3, p_hi[1]);
        assert forall|i: int| 0 <= i < idx + 4 implies #[trigger] blk.code_at(i) == pair_code(
            buf@[i / 4],
            i % 4,
        ) by {
            if i >= idx {
                assert(i / 4 == k && i % 4 == i - idx);
            }
        }
        idx += 4;
    }
    proof {
        lemma_codes_determine_bytes(blk, buf@);
        lemma_words_bytes_roundtrip(blk.0@);
    }
    blk
}

/// A block whose 512 codes are the two-bit fields of `b` has `b` as its bytes.
proof fn lemma_codes_determine_bytes(blk: Sign2Block, b: Seq<u8>)
    requires
        b.len() == 128,
        forall|i: int| 0 <= i < 512 ==> #[trigger] blk.code_at(i) == pair_code(b[i / 4], i % 4),
    ensures
        blk.bytes() == b,
{
    assert forall|k: int| 0 <= k < 128 implies blk.bytes()[k] == b[k] by {
        assert(blk.code_at(4 * k) == pair_code(b[k], 0));
        assert(blk.code_at(4 * k + 1) == pair_code(b[k], 1));
        assert(blk.code_at(4 * k + 2) == pair_code(b[k], 2));
        assert(blk.code_at(4 * k + 3) == pair_code(b[k], 3));
        lemma_byte_from_pairs(b[k]);
        lemma_byte_from_pairs(blk.bytes()[k]);
    }
    assert(blk.bytes() =~= b);
}

/// A byte rebuilt from its four two-bit fields by nibbles.
proof fn lemma_byte_of_codes(b: u8)
    ensures
        ((pair_code(b, 2) + 4 * pair_code(b, 3)) % 16) * 16 + (pair_code(b, 0) + 4 * pair_code(b, 1))
            % 16 == b,
{
    lemma_byte_from_pairs(b);
    assert(pair_code(b, 0) < 4 && pair_code(b, 1) < 4 && pair_code(b, 2) < 4 && pair_code(b, 3) < 4);
}

/// A block of 512 sign values as 128 bytes; inverse of [`bytes_to_sign2_block`].
pub fn sign2_block_to_bytes(blk: &Sign2Block) -> (out: [u8; BLOCK_BYTES])
    ensures
        out@ == blk.bytes(),
{
    let mut out = [0u8; BLOCK_BYTES];
    for byte_i in 0..BLOCK_BYTES
        invariant
            out@.len() == 128,
            forall|k: int| 0 <= k < byte_i ==> #[trigger] out@[k] == blk.bytes()[k],
    {
        let base = byte_i * 4;
        let lo = sign2_pair_to_nibble([blk.get(base), blk.get(base + 1)]);
        let hi = sign2_pair_to_nibble([blk.get(base + 2), blk.get(base + 3)]);
        out[byte_i] = nibbles_to_byte(hi, lo);
        proof {
            let b = blk.bytes()[byte_i as int];
            assert(blk.code_at(base as int) == pair_code(b, 0));
            assert(blk.code_at(base + 1) == pair_code(b, 1));
            assert(blk.code_at(base + 2) == pair_code(b, 2));
            assert(blk.code_at(base + 3) == pair_code(b, 3));
            lemma_byte_of_codes(b);
        }
    }
    assert(out@ =~= blk.bytes());
    out
}

/// Splitting a byte into nibbles and joining them gives the byte back.
pub proof fn lemma_nibble_byte_roundtrip(b: u8)
    ensures
        ((b / 16) % 16) * 16 + (b % 16) % 16 == b,
{
}

/// Splitting a nibble into two sign codes and joining them gives the nibble back.
pub proof fn lemma_nibble_sign2_roundtrip(n: u8)
    requires
        n < 16,
    ensures
        n % 4 + 4 * ((n / 4) % 4) == n,
{
}

/// Words to bytes to a sign block to bytes to words is the identity.
pub proof fn lemma_fourfold_chain(words: Seq<u64>, blk: Sign2Block)
    requires
        words.len() == 16,
        blk.bytes() == spec_words_to_bytes(words),
    ensures
        spec_bytes_to_words(blk.bytes()) == words,
{
    lemma_words_bytes_roundtrip(words);
}

} // verus!
