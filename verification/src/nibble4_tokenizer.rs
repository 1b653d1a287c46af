//! UTF-8 text in 1024-bit blocks of nibbles.
//!
//! A block is sixteen `u64` words, read as 128 big-endian bytes. Bytes
//! 0..=126 carry payload; byte 127 is the tag: bit 7 marks the final block and
//! bits 0..=6 count the payload bytes used. Characters never straddle blocks:
//! a character that does not fit in what is left of a block starts the next one.
use vstd::prelude::*;
use vstd::std_specs::iter::IteratorSpec;
use vstd::utf8::{encode_scalar, encode_utf8, valid_utf8, decode_utf8, char_is_scalar};
use crate::text::{decimal, push_decimal, string_from_utf8};
use vstd::string::StringExecFns;
use crate::iso::{
    bytes_to_words, lemma_bytes_words_roundtrip, spec_bytes_to_words, spec_words_to_bytes,
    words_to_bytes,
};

verus! {

broadcast use vstd::string::group_string_axioms;

/// One 1024-bit token block.
#[derive(Debug, Clone, Copy, PartialEq, Eq, Hash)]
pub struct Nibble4Token(pub [u64; 16]);

/// Bytes per block, tag included.
pub const BLOCK_BYTES: usize = 128;
/// Payload bytes per block, tag excluded.
pub const PAYLOAD_BYTES: usize = 127;
/// Final-block flag of the tag.
pub const FINAL_FLAG: u8 = 0x80;
/// Used-byte count mask of the tag.
pub const USED_MASK: u8 = 0x7f;

/// Why a block sequence does not decode.
#[derive(Debug, Clone, PartialEq, Eq)]
pub enum DecodeError {
    /// The last block is not marked final, or an earlier block is.
    UnterminatedStream,
    /// A used-byte count beyond the payload.
    UsedOutOfRange(u8),
    /// The payload is not valid UTF-8.
    InvalidUtf8,
}

impl DecodeError {
    /// The text that describes the error.
    pub fn message(&self) -> (r: String)
        ensures
            r@ == (match self {
                DecodeError::UnterminatedStream => "unterminated stream"@,
                DecodeError::UsedOutOfRange(u) => "used out of range: "@ + decimal(*u as nat),
                DecodeError::InvalidUtf8 => "invalid utf-8"@,
            }),
    {
        match self {
            DecodeError::UnterminatedStream => String::from_str("unterminated stream"),
            DecodeError::UsedOutOfRange(u) => {
                let mut s = String::from_str("used out of range: ");
                push_decimal(&mut s, *u as u64);
                s
            },
            DecodeError::InvalidUtf8 => String::from_str("invalid utf-8"),
        }
    }
}

/// The payloads the encoder cuts a character sequence into, continuing a
/// block whose payload so far is `cur`: each character's UTF-8 bytes are
/// appended to the open block, and when they would overflow the 127 payload
/// bytes the block is closed and the character opens the next one.
pub open spec fn chunk_payloads(cs: Seq<char>, cur: Seq<u8>) -> Seq<Seq<u8>>
    decreases cs.len(),
{
    if cs.len() == 0 {
        seq![cur]
    } else {
        let e = encode_scalar(cs[0] as u32);
        if cur.len() + e.len() > 127 {
            seq![cur] + chunk_payloads(cs.drop_first(), e)
        } else {
            chunk_payloads(cs.drop_first(), cur + e)
        }
    }
}

/// The block payloads of a text.
pub open spec fn payloads_of(s: Seq<char>) -> Seq<Seq<u8>> {
    chunk_payloads(s, seq![])
}

/// The 128 bytes of a block carrying `payload`, zero-padded, with its tag.
pub open spec fn block_image(payload: Seq<u8>, is_final: bool) -> Seq<u8> {
    Seq::new(
        128,
        |k: int|
            if k < payload.len() {
                payload[k]
            } else if k == 127 {
                ((if is_final {
                    128int
                } else {
                    0int
                }) + payload.len()) as u8
            } else {
                0u8
            },
    )
}

/// `blocks` is the encoding of the text `s`: one block per payload, only the last final.
pub open spec fn is_encoding_of(blocks: Seq<Nibble4Token>, s: Seq<char>) -> bool {
    &&& blocks.len() == payloads_of(s).len()
    &&& forall|k: int|
        0 <= k < blocks.len() ==> #[trigger] blocks[k].bytes() == block_image(
            payloads_of(s)[k],
            k == blocks.len() - 1,
        )
}

/// Concatenation of a sequence of byte strings.
pub open spec fn concat(parts: Seq<Seq<u8>>) -> Seq<u8>
    decreases parts.len(),
{
    if parts.len() == 0 {
        seq![]
    } else {
        parts[0] + concat(parts.drop_first())
    }
}

/// Only the last block is marked final.
pub open spec fn well_terminated(blocks: Seq<Nibble4Token>) -> bool {
    &&& blocks.len() > 0
    &&& blocks.last().final_flag()
    &&& forall|i: int| 0 <= i < blocks.len() - 1 ==> !#[trigger] blocks[i].final_flag()
}

/// The payloads of all blocks, joined in order.
pub open spec fn joined_payload(blocks: Seq<Nibble4Token>) -> Seq<u8> {
    concat(Seq::new(blocks.len(), |k: int| blocks[k].payload()))
}

impl Nibble4Token {
    /// The block read as 128 big-endian bytes.
    pub open spec fn bytes(self) -> Seq<u8> {
        spec_words_to_bytes(self.0@)
    }

    /// The tag byte.
    pub open spec fn tag_byte(self) -> u8 {
        self.bytes()[127]
    }

    /// Whether the tag marks the final block.
    pub open spec fn final_flag(self) -> bool {
        self.tag_byte() >= 128
    }

    /// The used-byte count of the tag.
    pub open spec fn used_count(self) -> u8 {
        (self.tag_byte() % 128) as u8
    }

    /// The payload bytes the block carries.
    pub open spec fn payload(self) -> Seq<u8> {
        self.bytes().take(self.used_count() as int)
    }

    /// The all-zero block.
    pub fn zero() -> (r: Self)
        ensures
            r.0@ == Seq::new(16, |i: int| 0u64),
    {
        let r = Nibble4Token([0u64; 16]);
        assert(r.0@ =~= Seq::new(16, |i: int| 0u64));
        r
    }

    /// The block whose big-endian bytes are `buf`.
    pub fn from_bytes(buf: &[u8; BLOCK_BYTES]) -> (r: Self)
        ensures
            r.0@ == spec_bytes_to_words(buf@),
            r.bytes() == buf@,
    {
        let r = Nibble4Token(bytes_to_words(buf));
        proof {
            lemma_bytes_words_roundtrip(buf@);
        }
        r
    }

    /// The block as 128 big-endian bytes.
    pub fn to_bytes(&self) -> (r: [u8; BLOCK_BYTES])
        ensures
            r@ == self.bytes(),
    {
        words_to_bytes(&self.0)
    }

    /// The block as 256 nibbles, the high nibble of each byte first.
    pub fn to_nibbles(&self) -> (r: [u8; 256])
        ensures
            forall|i: int|
                #![trigger self.bytes()[i]]
                0 <= i < 128 ==> r@[2 * i] == self.bytes()[i] / 16 && r@[2 * i + 1]
                    == self.bytes()[i] % 16,
    {
        let bytes = self.to_bytes();
        let mut nibbles = [0u8; 256];
        for i in 0..BLOCK_BYTES
            invariant
                bytes@ == self.bytes(),
                nibbles@.len() == 256,
                forall|ii: int|
                    #![trigger bytes@[ii]]
                    0 <= ii < i ==> nibbles@[2 * ii] == bytes@[ii] / 16 && nibbles@[2
                        * ii + 1] == bytes@[ii] % 16,
        {
            let b = bytes[i];
            assert((b >> 4) & 0x0f == b / 16 && b & 0x0f == b % 16) by (bit_vector);
            nibbles[i * 2] = (b >> 4) & 0x0f;
            nibbles[i * 2 + 1] = b & 0x0f;
        }
        nibbles
    }

    /// The raw tag byte.
    pub fn tag(&self) -> (r: u8)
        ensures
            r == self.tag_byte(),
    {
        self.to_bytes()[BLOCK_BYTES - 1]
    }

    /// Whether this is the final block.
    pub fn is_final(&self) -> (r: bool)
        ensures
            r == self.final_flag(),
    {
        let t = self.tag();
        proof {
            lemma_tag_fields(t);
        }
        (t & FINAL_FLAG) != 0
    }

    /// The number of payload bytes used in this block.
    pub fn used(&self) -> (r: u8)
        ensures
            r == self.used_count(),
    {
        let t = self.tag();
        proof {
            lemma_tag_fields(t);
        }
        t & USED_MASK
    }
}

/// The low seven bits of a tag are its remainder mod 128; the top bit is set
/// exactly from 128 on.
proof fn lemma_tag_fields(t: u8)
    by (bit_vector)
    ensures
        t & 0x7f == t % 128,
        (t & 0x80 != 0) == (t >= 128),
{
}

/// The UTF-8 bytes of one character, in the first `n` places of a 4-byte buffer.
fn encode_char(c: char) -> (r: ([u8; 4], usize))
    ensures
        1 <= r.1 <= 4,
        r.1 == encode_scalar(c as u32).len(),
        r.0@.take(r.1 as int) == encode_scalar(c as u32),
{
    let v = c as u32;
    proof {
        char_is_scalar(c);
    }
    if v <= 0x7F {
        let b = [(v & 0x7F) as u8, 0, 0, 0];
        assert(b@.take(1) =~= encode_scalar(v));
        (b, 1)
    } else if v <= 0x7FF {
        let b = [0xC0 | ((v >> 6) & 0x1F) as u8, 0x80 | (v & 0x3F) as u8, 0, 0];
        assert(b@.take(2) =~= encode_scalar(v));
        (b, 2)
    } else if v <= 0xFFFF {
        let b = [
            0xE0 | ((v >> 12) & 0x0F) as u8,
            0x80 | ((v >> 6) & 0x3F) as u8,
            0x80 | (v & 0x3F) as u8,
            0,
        ];
        assert(b@.take(3) =~= encode_scalar(v));
        (b, 3)
    } else {
        let b = [
            0xF0 | ((v >> 18) & 0x7) as u8,
            0x80 | ((v >> 12) & 0x3F) as u8,
            0x80 | ((v >> 6) & 0x3F) as u8,
            0x80 | (v & 0x3F) as u8,
        ];
        assert(b@.take(4) =~= encode_scalar(v));
        (b, 4)
    }
}

/// The 128 bytes of an open block: the payload, then zeros.
spec fn open_block(cur: Seq<u8>) -> Seq<u8> {
    Seq::new(128, |k: int| if k < cur.len() { cur[k] } else { 0u8 })
}

/// The payloads of the closed blocks.
spec fn closed_payloads(blocks: Seq<Nibble4Token>) -> Seq<Seq<u8>> {
    Seq::new(blocks.len(), |k: int| blocks[k].payload())
}

/// Closing an open block with a non-final tag gives a block with that payload.
proof fn lemma_close_block(cur: Seq<u8>, buf: Seq<u8>, blk: Nibble4Token, is_final: bool)
    requires
        cur.len() <= 127,
        buf == open_block(cur).update(127, ((if is_final { 128int } else { 0int }) + cur.len()) as u8),
        blk.bytes() == buf,
    ensures
        blk.payload() == cur,
        blk.bytes() == block_image(cur, is_final),
{
    assert(blk.used_count() == cur.len());
    assert(blk.payload() =~= cur);
    assert(buf =~= block_image(cur, is_final));
}

/// Encodes UTF-8 text into 1024-bit blocks. Characters never straddle a
/// block; the empty text gives one final block with no payload.
pub fn encode(s: &str) -> (blocks: Vec<Nibble4Token>)
    ensures
        is_encoding_of(blocks@, s@),
{
    let mut blocks: Vec<Nibble4Token> = Vec::new();
    let mut buf = [0u8; BLOCK_BYTES];
    let mut used: usize = 0;
    let mut it = s.chars();
    let ghost mut idx: int = 0;
    let ghost mut cur: Seq<u8> = seq![];
    assert(buf@ =~= open_block(cur));
    assert(s@.skip(0) =~= s@);
    assert(closed_payloads(blocks@) + chunk_payloads(s@.skip(idx), cur) =~= payloads_of(s@));
    loop
        invariant
            0 <= idx <= s@.len(),
            it.remaining() == s@.skip(idx),
            used == cur.len(),
            used <= 127,
            buf@ == open_block(cur),
            payloads_of(s@) == closed_payloads(blocks@) + chunk_payloads(s@.skip(idx), cur),
            forall|k: int|
                0 <= k < blocks@.len() ==> #[trigger] blocks@[k].bytes() == block_image(
                    blocks@[k].payload(),
                    false,
                ),
        ensures
            it.remaining().len() == 0,
        decreases s@.len() - idx,
    {
        let ghost rest = it.remaining();
        match it.next() {
            None => {
                break;
            },
            Some(ch) => {
                assert(rest.len() > 0 && ch == rest[0]);
                assert(it.remaining() == rest.drop_first());
                assert(rest.drop_first() =~= s@.skip(idx + 1));
                let (eb, n) = encode_char(ch);
                let ghost e = encode_scalar(ch as u32);
                if used + n > PAYLOAD_BYTES {
                    buf[BLOCK_BYTES - 1] = used as u8;
                    let blk = Nibble4Token::from_bytes(&buf);
                    proof {
                        lemma_close_block(cur, buf@, blk, false);
                        assert(chunk_payloads(rest, cur) == seq![cur] + chunk_payloads(
                            rest.drop_first(),
                            e,
                        ));
                    }
                    let ghost old_blocks = blocks@;
                    blocks.push(blk);
                    proof {
                        assert(closed_payloads(blocks@) =~= closed_payloads(old_blocks) + seq![cur]);
                        assert(closed_payloads(old_blocks) + (seq![cur] + chunk_payloads(
                            rest.drop_first(),
                            e,
                        )) =~= closed_payloads(blocks@) + chunk_payloads(rest.drop_first(), e));
                    }
                    buf = [0u8; BLOCK_BYTES];
                    used = 0;
                    proof {
                        cur = seq![];
                        assert(buf@ =~= open_block(cur));
                    }
                } else {
                    proof {
                        assert(chunk_payloads(rest, cur) == chunk_payloads(
                            rest.drop_first(),
                            cur + e,
                        ));
                    }
                }
                let ghost before = cur;
                let mut t: usize = 0;
                while t < n
                    invariant
                        t <= n,
                        n <= 4,
                        used + n <= 127,
                        used == before.len(),
                        buf@.len() == 128,
                        forall|k: int|
                            0 <= k < 128 && !(used <= k < used + t) ==> buf@[k] == open_block(
                                before,
                            )[k],
                        forall|k: int| 0 <= k < t ==> buf@[used + k] == eb@[k],
                    decreases n - t,
                {
                    buf[used + t] = eb[t];
                    t = t + 1;
                }
                proof {
                    idx = idx + 1;
                    cur = cur + e;
                    assert(eb@.take(n as int) == e);
                    assert forall|k: int| 0 <= k < 128 implies buf@[k] == open_block(cur)[k] by {
                        if used <= k < used + n {
                            assert(buf@[used + (k - used)] == eb@[k - used]);
                            assert(eb@.take(n as int)[k - used] == eb@[k - used]);
                        }
                    }
                    assert(buf@ =~= open_block(cur));
                }
                used = used + n;
            },
        }
    }
    assert(it.remaining().len() == 0);
    assert(chunk_payloads(s@.skip(idx), cur) == seq![cur]);
    assert((0x80u8 | (used as u8)) == 128 + used) by (bit_vector)
        requires
            used < 128,
    ;
    buf[BLOCK_BYTES - 1] = FINAL_FLAG | (used as u8);
    let blk = Nibble4Token::from_bytes(&buf);
    proof {
        lemma_close_block(cur, buf@, blk, true);
    }
    let ghost old_blocks = blocks@;
    blocks.push(blk);
    proof {
        assert(closed_payloads(blocks@) =~= closed_payloads(old_blocks) + seq![cur]);
        assert(payloads_of(s@) == closed_payloads(blocks@));
        assert forall|k: int| 0 <= k < blocks@.len() implies #[trigger] blocks@[k].bytes()
            == block_image(payloads_of(s@)[k], k == blocks@.len() - 1) by {
            assert(payloads_of(s@)[k] == blocks@[k].payload());
        }
    }
    blocks
}

/// A single part concatenates to itself.
proof fn lemma_concat_single(x: Seq<u8>)
    ensures
        concat(seq![x]) == x,
{
    assert(seq![x].drop_first() =~= Seq::<Seq<u8>>::empty());
    assert(concat(Seq::<Seq<u8>>::empty()) == Seq::<u8>::empty());
    assert(concat(seq![x]) == x + concat(Seq::<Seq<u8>>::empty()));
    assert(x + Seq::<u8>::empty() =~= x);
}

/// Appending a part to a list of parts appends it to their concatenation.
proof fn lemma_concat_push(parts: Seq<Seq<u8>>, x: Seq<u8>)
    ensures
        concat(parts.push(x)) == concat(parts) + x,
    decreases parts.len(),
{
    if parts.len() == 0 {
        assert(parts.push(x) =~= seq![x]);
        lemma_concat_single(x);
    } else {
        assert(parts.push(x).drop_first() =~= parts.drop_first().push(x));
        lemma_concat_push(parts.drop_first(), x);
        assert(concat(parts.push(x)) =~= concat(parts) + x);
    }
}

/// Decodes a block sequence back into text. The blocks must end with the
/// only final block; the empty sequence decodes to the empty text.
pub fn decode(blocks: &[Nibble4Token]) -> (r: Result<String, DecodeError>)
    ensures
        blocks@.len() == 0 ==> (r matches Ok(t) && t@ == Seq::<char>::empty()),
        blocks@.len() > 0 && !well_terminated(blocks@) ==> r == Err::<String, DecodeError>(
            DecodeError::UnterminatedStream,
        ),
        blocks@.len() > 0 && well_terminated(blocks@) && !valid_utf8(joined_payload(blocks@))
            ==> r == Err::<String, DecodeError>(DecodeError::InvalidUtf8),
        blocks@.len() > 0 && well_terminated(blocks@) && valid_utf8(joined_payload(blocks@))
            ==> (r matches Ok(t) && t@ == decode_utf8(joined_payload(blocks@))),
{
    if blocks.len() == 0 {
        return Ok(String::new());
    }
    let mut bytes: Vec<u8> = Vec::new();
    let last = blocks.len() - 1;
    for i in 0..blocks.len()
        invariant
            last == blocks@.len() - 1,
            bytes@ == concat(Seq::new(i as nat, |k: int| blocks@[k].payload())),
            forall|k: int| 0 <= k < i && k < last ==> !#[trigger] blocks@[k].final_flag(),
            i > last ==> blocks@[last as int].final_flag(),
    {
        let blk = &blocks[i];
        let raw = blk.to_bytes();
        let tag = raw[BLOCK_BYTES - 1];
        let used = (tag & USED_MASK) as usize;
        let is_final = (tag & FINAL_FLAG) != 0;
        proof {
            lemma_tag_fields(tag);
        }
        assert(blocks@[i as int].final_flag() == is_final);
        if used > PAYLOAD_BYTES {
            return Err(DecodeError::UsedOutOfRange(used as u8));
        }
        if i < last && is_final {
            return Err(DecodeError::UnterminatedStream);
        }
        if i == last && !is_final {
            return Err(DecodeError::UnterminatedStream);
        }
        let ghost before = bytes@;
        let mut t: usize = 0;
        while t < used
            invariant
                used <= 127,
                raw@ == blk.bytes(),
                used == blk.used_count(),
                t <= used,
                bytes@ == before + raw@.take(t as int),
            decreases used - t,
        {
            bytes.push(raw[t]);
            t = t + 1;
            assert(raw@.take(t as int) =~= raw@.take(t - 1).push(raw@[t - 1]));
        }
        proof {
            let parts = Seq::new(i as nat, |k: int| blocks@[k].payload());
            lemma_concat_push(parts, blk.payload());
            assert(parts.push(blk.payload()) =~= Seq::new((i + 1) as nat, |k: int| blocks@[k].payload()));
        }
    }
    assert(Seq::new(blocks@.len(), |k: int| blocks@[k].payload()) =~= Seq::new(blocks.len() as nat, |k: int| blocks@[k].payload()));
    match string_from_utf8(bytes) {
        Some(t) => Ok(t),
        None => Err(DecodeError::InvalidUtf8),
    }
}

/// The payloads continuing from `cur` join to `cur` followed by the UTF-8
/// bytes of the remaining characters.
proof fn lemma_chunk_concat(cs: Seq<char>, cur: Seq<u8>)
    ensures
        concat(chunk_payloads(cs, cur)) == cur + encode_utf8(cs),
        chunk_payloads(cs, cur).len() >= 1,
    decreases cs.len(),
{
    if cs.len() == 0 {
        lemma_concat_single(cur);
        assert(cur + encode_utf8(cs) =~= cur);
    } else {
        let e = encode_scalar(cs[0] as u32);
        let rest = cs.drop_first();
        lemma_chunk_concat(rest, e);
        lemma_chunk_concat(rest, cur + e);
        if cur.len() + e.len() > 127 {
            let parts = seq![cur] + chunk_payloads(rest, e);
            assert(parts.drop_first() =~= chunk_payloads(rest, e));
            assert(concat(parts) == cur + concat(chunk_payloads(rest, e)));
        }
        assert(cur + (e + encode_utf8(rest)) =~= (cur + e) + encode_utf8(rest));
    }
}

/// Every payload continuing from a valid open payload of at most 127 bytes
/// has at most 127 bytes and is valid UTF-8 by itself.
proof fn lemma_chunk_well_formed(cs: Seq<char>, cur: Seq<u8>)
    requires
        cur.len() <= 127,
        valid_utf8(cur),
    ensures
        forall|k: int|
            0 <= k < chunk_payloads(cs, cur).len() ==> #[trigger] chunk_payloads(cs, cur)[k].len()
                <= 127 && valid_utf8(chunk_payloads(cs, cur)[k]),
    decreases cs.len(),
{
    broadcast use vstd::utf8::valid_utf8_concat, vstd::utf8::encode_utf8_valid_utf8;

    if cs.len() > 0 {
        let c = cs[0];
        let e = encode_scalar(c as u32);
        let rest = cs.drop_first();
        assert(encode_utf8(seq![c]) =~= e) by {
            assert(seq![c].drop_first() =~= Seq::<char>::empty());
            assert(encode_utf8(Seq::<char>::empty()) == Seq::<u8>::empty());
            assert(encode_utf8(seq![c]) == e + encode_utf8(Seq::<char>::empty()));
        }
        assert(valid_utf8(encode_utf8(seq![c])));
        assert(valid_utf8(e));
        char_is_scalar(c);
        assert(e.len() <= 4);
        if cur.len() + e.len() > 127 {
            lemma_chunk_well_formed(rest, e);
            let tail = chunk_payloads(rest, e);
            assert(chunk_payloads(cs, cur) == seq![cur] + tail);
            assert forall|k: int| 0 <= k < chunk_payloads(cs, cur).len() implies #[trigger] chunk_payloads(cs, cur)[k].len()
                <= 127 && valid_utf8(chunk_payloads(cs, cur)[k]) by {
                if k > 0 {
                    assert(chunk_payloads(cs, cur)[k] == tail[k - 1]);
                }
            }
        } else {
            assert(valid_utf8(cur + e));
            lemma_chunk_well_formed(rest, cur + e);
            assert(chunk_payloads(cs, cur) == chunk_payloads(rest, cur + e));
        }
    }
}

/// The blocks of a text's encoding carry payloads of at most 127 bytes, each
/// valid UTF-8 on its own: no character straddles a block boundary.
pub proof fn lemma_payloads_whole_characters(s: Seq<char>)
    ensures
        payloads_of(s).len() >= 1,
        forall|k: int|
            0 <= k < payloads_of(s).len() ==> #[trigger] payloads_of(s)[k].len() <= 127
                && valid_utf8(payloads_of(s)[k]),
        concat(payloads_of(s)) == encode_utf8(s),
{
    lemma_chunk_concat(s, seq![]);
    assert(Seq::<u8>::empty() + encode_utf8(s) =~= encode_utf8(s));
    assert(valid_utf8(Seq::<u8>::empty()));
    lemma_chunk_well_formed(s, seq![]);
}

/// Decoding the encoding of a text gives the text back: the encoding ends
/// with its only final block, and its joined payload is the text's UTF-8.
pub proof fn lemma_encode_decode_roundtrip(s: Seq<char>, blocks: Seq<Nibble4Token>)
    requires
        is_encoding_of(blocks, s),
    ensures
        blocks.len() > 0,
        well_terminated(blocks),
        joined_payload(blocks) == encode_utf8(s),
        valid_utf8(joined_payload(blocks)),
        decode_utf8(joined_payload(blocks)) == s,
{
    broadcast use vstd::utf8::encode_utf8_valid_utf8, vstd::utf8::encode_utf8_decode_utf8;

    lemma_payloads_whole_characters(s);
    let p = payloads_of(s);
    assert forall|k: int| 0 <= k < blocks.len() implies #[trigger] blocks[k].payload() == p[k]
        && blocks[k].final_flag() == (k == blocks.len() - 1) by {
        assert(blocks[k].bytes() == block_image(p[k], k == blocks.len() - 1));
        assert(blocks[k].tag_byte() == block_image(p[k], k == blocks.len() - 1)[127]);
        assert(blocks[k].used_count() == p[k].len());
        assert(blocks[k].payload() =~= p[k]);
    }
    assert(Seq::new(blocks.len(), |k: int| blocks[k].payload()) =~= p);
}

} // verus!
