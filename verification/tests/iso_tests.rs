use bitrag::iso::{
    byte_to_nibbles, bytes_to_sign2_block, bytes_to_words, nibble_to_sign2_pair,
    nibbles_to_byte, sign2_block_to_bytes, sign2_pair_to_nibble, words_to_bytes,
};
use bitrag::sign2::{Sign2, BLOCK_BYTES};

#[test]
fn nibble_byte_roundtrip() {
    for b in 0u8..=255 {
        let (hi, lo) = byte_to_nibbles(b);
        assert_eq!(nibbles_to_byte(hi, lo), b);
    }
}

#[test]
fn nibble_sign2_roundtrip() {
    for n in 0u8..16 {
        let p = nibble_to_sign2_pair(n);
        assert_eq!(sign2_pair_to_nibble(p), n);
    }
}

#[test]
fn bytes_block_roundtrip_random() {
    let mut buf = [0u8; BLOCK_BYTES];
    let mut x: u64 = 0x9E3779B97F4A7C15;
    for b in buf.iter_mut() {
        x = x.wrapping_mul(6364136223846793005).wrapping_add(1442695040888963407);
        *b = (x >> 56) as u8;
    }
    let blk = bytes_to_sign2_block(&buf);
    let back = sign2_block_to_bytes(&blk);
    assert_eq!(back, buf);
}

#[test]
fn words_bytes_roundtrip() {
    let words: [u64; 16] = std::array::from_fn(|i| (i as u64).wrapping_mul(0xDEADBEEF_01234567));
    let buf = words_to_bytes(&words);
    let back = bytes_to_words(&buf);
    assert_eq!(back, words);
}

#[test]
fn fourfold_iso_chain() {
    let words: [u64; 16] = std::array::from_fn(|i| (i as u64).wrapping_mul(0xA5A5_A5A5_A5A5_A5A5));
    let bytes = words_to_bytes(&words);
    let blk = bytes_to_sign2_block(&bytes);
    let bytes2 = sign2_block_to_bytes(&blk);
    let words2 = bytes_to_words(&bytes2);
    assert_eq!(words, words2);
}

#[test]
fn words_are_big_endian_bytes() {
    let mut words = [0u64; 16];
    words[0] = 0x0102_0304_0506_0708;
    let buf = words_to_bytes(&words);
    assert_eq!(&buf[0..8], &[1, 2, 3, 4, 5, 6, 7, 8]);
    assert_eq!(buf[8], 0);
}

#[test]
fn nibble_splits_into_low_then_high_pairs() {
    // 0b1001: low pair 01 (Plus), high pair 10 (Minus)
    assert_eq!(nibble_to_sign2_pair(0b1001), [Sign2::Plus, Sign2::Minus]);
    assert_eq!(byte_to_nibbles(0xAB), (0xA, 0xB));
    assert_eq!(nibbles_to_byte(0x1A, 0x2B), 0xAB);
}

#[test]
fn block_values_follow_byte_order() {
    let mut buf = [0u8; BLOCK_BYTES];
    buf[0] = 0b10_01_00_11; // values 0..4: Spare, Zero, Plus, Minus
    let blk = bytes_to_sign2_block(&buf);
    assert_eq!(blk.get(0), Sign2::Spare);
    assert_eq!(blk.get(1), Sign2::Zero);
    assert_eq!(blk.get(2), Sign2::Plus);
    assert_eq!(blk.get(3), Sign2::Minus);
    assert_eq!(blk.get(4), Sign2::Zero);
}
