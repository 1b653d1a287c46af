use bitrag::nibble4_tokenizer::{decode, encode, DecodeError, Nibble4Token, BLOCK_BYTES};

fn roundtrip(s: &str) {
    let enc = encode(s);
    let dec = decode(&enc).expect("decode");
    assert_eq!(dec, s, "round-trip mismatch (len={})", s.len());
}

#[test]
fn empty_string() {
    let enc = encode("");
    assert_eq!(enc.len(), 1);
    assert!(enc[0].is_final());
    assert_eq!(enc[0].used(), 0);
    roundtrip("");
}

#[test]
fn ascii_short() {
    roundtrip("Hello, bitRAG!");
}

#[test]
fn japanese_multibyte() {
    roundtrip("にぶる4のトークナイザ");
}

#[test]
fn emoji_4byte() {
    roundtrip("🦀🚀🧠💡");
}

#[test]
fn cross_block_boundary_ascii() {
    let s: String = std::iter::repeat('a').take(300).collect();
    let enc = encode(&s);
    assert_eq!(enc.len(), 3);
    assert!(!enc[0].is_final());
    assert_eq!(enc[0].used(), 127);
    assert!(!enc[1].is_final());
    assert_eq!(enc[1].used(), 127);
    assert!(enc[2].is_final());
    assert_eq!(enc[2].used(), 46);
    roundtrip(&s);
}

#[test]
fn char_boundary_no_split() {
    let mut s: String = std::iter::repeat('a').take(126).collect();
    s.push('🦀');
    let enc = encode(&s);
    assert_eq!(enc.len(), 2);
    assert!(!enc[0].is_final());
    assert_eq!(enc[0].used(), 126);
    assert!(enc[1].is_final());
    assert_eq!(enc[1].used(), 4);
    roundtrip(&s);
}

#[test]
fn exactly_one_block() {
    let s: String = std::iter::repeat('z').take(127).collect();
    let enc = encode(&s);
    assert_eq!(enc.len(), 1);
    assert!(enc[0].is_final());
    assert_eq!(enc[0].used(), 127);
    roundtrip(&s);
}

#[test]
fn large_alphanumeric() {
    let s: String = (0..1000).map(|i| ((b'a' + (i % 26) as u8) as char)).collect();
    roundtrip(&s);
}

#[test]
fn mixed_scripts() {
    roundtrip("ABCあいう🦀漢字とemojiが混在 — テスト 12345");
}

#[test]
fn nibble_count_is_256() {
    let blk = encode("x")[0];
    assert_eq!(blk.to_nibbles().len(), 256);
}

#[test]
fn unterminated_stream_detected() {
    let mut buf = [0u8; BLOCK_BYTES];
    buf[BLOCK_BYTES - 1] = 10;
    let bad = Nibble4Token::from_bytes(&buf);
    assert_eq!(decode(&[bad]), Err(DecodeError::UnterminatedStream));
}

#[test]
fn empty_stream_decodes_to_empty_string() {
    assert_eq!(decode(&[]), Ok(String::new()));
}

#[test]
fn block_after_final_is_rejected() {
    let mut blocks = encode("ab");
    blocks.push(encode("c")[0]);
    assert_eq!(decode(&blocks), Err(DecodeError::UnterminatedStream));
}

#[test]
fn invalid_utf8_payload_is_rejected() {
    let mut buf = [0u8; BLOCK_BYTES];
    buf[0] = 0xFF;
    buf[BLOCK_BYTES - 1] = 0x80 | 1;
    let bad = Nibble4Token::from_bytes(&buf);
    assert_eq!(decode(&[bad]), Err(DecodeError::InvalidUtf8));
}

#[test]
fn tag_layout_and_byte_roundtrip() {
    let blk = encode("hi")[0];
    let bytes = blk.to_bytes();
    assert_eq!(bytes[0], b'h');
    assert_eq!(bytes[1], b'i');
    assert_eq!(bytes[BLOCK_BYTES - 1], 0x80 | 2);
    assert_eq!(blk.tag(), 0x82);
    assert_eq!(Nibble4Token::from_bytes(&bytes), blk);
    let nibs = blk.to_nibbles();
    assert_eq!(nibs[0], b'h' >> 4);
    assert_eq!(nibs[1], b'h' & 0x0f);
}

#[test]
fn decode_error_messages() {
    assert_eq!(DecodeError::UnterminatedStream.message(), "unterminated stream");
    assert_eq!(DecodeError::UsedOutOfRange(200).message(), "used out of range: 200");
    assert_eq!(DecodeError::InvalidUtf8.message(), "invalid utf-8");
}
