//! Two-bit sign codes: `01` is +1, `00` is 0, `10` is -1 and `11` is a spare second zero.
use vstd::prelude::*;
use crate::iso::{
    bytes_to_words, lemma_bytes_words_roundtrip, spec_bytes_to_words, spec_words_to_bytes,
    word_byte, words_to_bytes,
};

verus! {

/// One value of {-1, 0, +1} stored in two bits, plus a spare code.
#[derive(Debug, Clone, Copy, PartialEq, Eq, Hash, Structural)]
pub enum Sign2 {
    Plus,
    Zero,
    Minus,
    Spare,
}

impl Sign2 {
    /// The two-bit code of a value.
    pub open spec fn code(self) -> u8 {
        match self {
            Sign2::Plus => 1,
            Sign2::Zero => 0,
            Sign2::Minus => 2,
            Sign2::Spare => 3,
        }
    }

    /// The integer a value stands for; the spare code stands for zero.
    pub open spec fn value(self) -> int {
        match self {
            Sign2::Plus => 1,
            Sign2::Zero => 0,
            Sign2::Minus => -1,
            Sign2::Spare => 0,
        }
    }

    /// The two-bit representation (0..=3).
    pub fn to_bits(self) -> (r: u8)
        ensures
            r == self.code(),
    {
        match self {
            Sign2::Plus => 0b01,
            Sign2::Zero => 0b00,
            Sign2::Minus => 0b10,
            Sign2::Spare => 0b11,
        }
    }

    /// The integer projection -1 / 0 / +1; the spare code projects to 0.
    pub fn to_i8(self) -> (r: i8)
        ensures
            r == self.value(),
    {
        match self {
            Sign2::Plus => 1,
            Sign2::Zero => 0,
            Sign2::Minus => -1,
            Sign2::Spare => 0,
        }
    }

    /// The character that prints a value: `+`, `0`, `-`, or `*` for the spare code.
    pub fn symbol(self) -> (c: char)
        ensures
            c == (match self {
                Sign2::Plus => '+',
                Sign2::Zero => '0',
                Sign2::Minus => '-',
                Sign2::Spare => '*',
            }),
    {
        match self {
            Sign2::Plus => '+',
            Sign2::Zero => '0',
            Sign2::Minus => '-',
            Sign2::Spare => '*',
        }
    }

    /// Rebuilds a value from the low two bits of `b`.
    pub fn from_bits(b: u8) -> (r: Self)
        ensures
            r.code() == b % 4,
    {
        let low = b & 0b11;
        assert(b & 0b11 == b % 4) by (bit_vector);
        match low {
            0b01 => Sign2::Plus,
            0b00 => Sign2::Zero,
            0b10 => Sign2::Minus,
            _ => Sign2::Spare,
        }
    }
}

/// Number of sign values in one 1024-bit block.
pub const VALUES_PER_BLOCK: usize = 512;
/// Number of bytes in one 1024-bit block.
pub const BLOCK_BYTES: usize = 128;

/// 512 sign values packed two bits each into 1024 bits.
#[derive(Debug, Clone, Copy, PartialEq, Eq, Hash)]
pub struct Sign2Block(pub [u64; 16]);

/// NAND of the low bits of `a` and `b`.
fn nand(a: u8, b: u8) -> (r: u8)
    ensures
        r == 1 - ((a & b) & 1),
{
    assert(!(a & b) & 1 == 1 - ((a & b) & 1)) by (bit_vector);
    !(a & b) & 1
}

/// XOR of the low bits, from four NAND gates.
fn xor_via_nand(a: u8, b: u8) -> (r: u8)
    ensures
        r == (a ^ b) & 1,
{
    let t = nand(a, b);
    let r = nand(nand(a, t), nand(b, t));
    assert(t == 1 - ((a & b) & 1) ==> 1 - ((((1 - ((a & t) & 1)) as u8) & ((1 - ((b & t) & 1)) as u8))
        & 1) == (a ^ b) & 1) by (bit_vector);
    r
}

/// AND of the low bits, from two NAND gates.
fn and_via_nand(a: u8, b: u8) -> (r: u8)
    ensures
        r == (a & b) & 1,
{
    let t = nand(a, b);
    let r = nand(t, t);
    assert(t == 1 - ((a & b) & 1) ==> 1 - ((t & t) & 1) == (a & b) & 1) by (bit_vector);
    r
}

impl Sign2 {
    /// The negated value: `+` and `-` swap, zero and the spare code stay.
    pub open spec fn negated(self) -> Sign2 {
        match self {
            Sign2::Plus => Sign2::Minus,
            Sign2::Minus => Sign2::Plus,
            Sign2::Zero => Sign2::Zero,
            Sign2::Spare => Sign2::Spare,
        }
    }

    /// Negation by swapping the two bits of the code.
    pub fn neg(self) -> (r: Self)
        ensures
            r == self.negated(),
            r.value() == -self.value(),
    {
        let b = self.to_bits();
        let h = (b >> 1) & 1;
        let l = b & 1;
        let r = Self::from_bits((l << 1) | h);
        assert(b < 4 ==> (((b & 1) << 1) | ((b >> 1) & 1)) % 4 == (if b == 1 {
            2
        } else if b == 2 {
            1
        } else {
            b
        })) by (bit_vector);
        r
    }

    /// Product on {-1, 0, +1}, built from NAND gates; the spare code counts as zero.
    pub fn mul(self, other: Self) -> (r: Self)
        ensures
            r.value() == self.value() * other.value(),
            r != Sign2::Spare,
    {
        let a = self.to_bits();
        let b = other.to_bits();
        let (ah, al) = ((a >> 1) & 1, a & 1);
        let (bh, bl) = ((b >> 1) & 1, b & 1);
        let ma = xor_via_nand(al, ah);
        let mb = xor_via_nand(bl, bh);
        let m = and_via_nand(ma, mb);
        let s_raw = xor_via_nand(ah, bh);
        let s = and_via_nand(s_raw, m);
        let h = s;
        let l = xor_via_nand(m, s);
        let r = Self::from_bits((h << 1) | l);
        assert(a < 4 && b < 4 ==> ({
            let ma = ((a & 1) ^ ((a >> 1) & 1)) & 1;
            let mb = ((b & 1) ^ ((b >> 1) & 1)) & 1;
            let m = (ma & mb) & 1;
            let s = ((((a >> 1) & 1) ^ ((b >> 1) & 1)) & 1 & m) & 1;
            let l = (m ^ s) & 1;
            ((s << 1) | l) % 4 == (if (a == 1 && b == 1) || (a == 2 && b == 2) {
                1u8
            } else if (a == 1 && b == 2) || (a == 2 && b == 1) {
                2u8
            } else {
                0u8
            })
        })) by (bit_vector);
        assert(r.code() == (if (a == 1 && b == 1) || (a == 2 && b == 2) {
            1u8
        } else if (a == 1 && b == 2) || (a == 2 && b == 1) {
            2u8
        } else {
            0u8
        }));
        r
    }

    /// Sum clamped to [-1, 1]; the spare code counts as zero.
    pub fn add_saturating(self, other: Self) -> (r: Self)
        ensures
            r.value() == (if self.value() + other.value() > 0 {
                1
            } else if self.value() + other.value() < 0 {
                -1
            } else {
                0
            }),
            r != Sign2::Spare,
    {
        let va = self.to_i8();
        let vb = other.to_i8();
        let s = va + vb;
        if s > 0 {
            Sign2::Plus
        } else if s < 0 {
            Sign2::Minus
        } else {
            Sign2::Zero
        }
    }
}

/// Equal codes mean equal values: the code of a value determines it, so
/// decoding an encoded value gives it back.
pub proof fn lemma_code_determines_value(a: Sign2, b: Sign2)
    requires
        a.code() == b.code(),
    ensures
        a == b,
{
}

/// Negating twice gives the value back.
pub proof fn lemma_negation_involutive(v: Sign2)
    ensures
        v.negated().negated() == v,
        v.negated().value() == -v.value(),
{
}

/// Unpacking as many values as were packed gives the values back.
pub proof fn lemma_pack_unpack_roundtrip(
    values: Seq<Sign2>,
    blocks: Seq<Sign2Block>,
    out: Seq<Sign2>,
)
    requires
        is_packing_of(blocks, values),
        is_unpacking_of(out, blocks, values.len() as int),
    ensures
        out == values,
{
    assert(512 * blocks.len() >= values.len()) by (nonlinear_arith)
        requires
            blocks.len() == (values.len() + 511) / 512,
    ;
    assert forall|k: int| 0 <= k < out.len() implies out[k] == values[k] by {
        let b = k / 512;
        let i = k % 512;
        assert(k == 512 * b + i);
        assert(blocks[b].code_at(i) == packed_code(values, 512 * b + i));
        assert(out[k].code() == blocks[k / 512].code_at(k % 512));
        lemma_code_determines_value(out[k], values[k]);
    }
    assert(out =~= values);
}

/// The two-bit field `t` (0 = lowest) of a byte.
pub open spec fn pair_code(b: u8, t: int) -> u8 {
    (b >> ((2 * t) as u8)) & 3u8
}

/// The sequence of values a packing holds at position `k`: the value itself,
/// or the spare code past the end.
pub open spec fn packed_code(values: Seq<Sign2>, k: int) -> u8 {
    if k < values.len() {
        values[k].code()
    } else {
        3
    }
}

/// `blocks` packs `values`: one block per started run of 512 values,
/// value `k` at position `k % 512` of block `k / 512`, the tail filled with spare codes.
pub open spec fn is_packing_of(blocks: Seq<Sign2Block>, values: Seq<Sign2>) -> bool {
    &&& blocks.len() == (values.len() + 511) / 512
    &&& forall|b: int, i: int|
        0 <= b < blocks.len() && 0 <= i < 512 ==> #[trigger] blocks[b].code_at(i) == packed_code(
            values,
            512 * b + i,
        )
}

/// `out` holds the first `len` values stored in `blocks` (fewer if the blocks run out).
pub open spec fn is_unpacking_of(out: Seq<Sign2>, blocks: Seq<Sign2Block>, len: int) -> bool {
    &&& out.len() == (if 512 * blocks.len() <= len {
        512 * blocks.len() as int
    } else {
        len
    })
    &&& forall|k: int| 0 <= k < out.len() ==> #[trigger] out[k].code() == blocks[k / 512].code_at(k % 512)
}

impl Sign2Block {
    /// The block read as 128 bytes, each word in big-endian order.
    pub open spec fn bytes(self) -> Seq<u8> {
        spec_words_to_bytes(self.0@)
    }

    /// The two-bit code stored at position `i` (0..512): byte `i / 4`, field `i % 4` from the low end.
    pub open spec fn code_at(self, i: int) -> u8 {
        pair_code(self.bytes()[i / 4], i % 4)
    }

    /// The block with every bit clear.
    pub fn zero() -> (r: Sign2Block)
        ensures
            r.0@ == Seq::new(16, |i: int| 0u64),
            forall|i: int| 0 <= i < 512 ==> #[trigger] r.code_at(i) == 0,
    {
        let r = Sign2Block([0u64; 16]);
        proof {
            lemma_zero_block_codes(r);
        }
        assert(r.0@ =~= Seq::new(16, |i: int| 0u64));
        r
    }

    /// The value at position `i`.
    pub fn get(&self, i: usize) -> (r: Sign2)
        requires
            i < VALUES_PER_BLOCK,
        ensures
            r.code() == self.code_at(i as int),
    {
        let byte = self.byte_at(i / 4);
        let shift: u8 = ((i % 4) * 2) as u8;
        let r = Sign2::from_bits(byte >> shift);
        assert((byte >> shift) % 4 == (byte >> shift) & 3u8) by (bit_vector);
        r
    }

    /// Writes `v` at position `i`, leaving every other position as it was.
    pub fn set(&mut self, i: usize, v: Sign2)
        requires
            i < VALUES_PER_BLOCK,
        ensures
            final(self).code_at(i as int) == v.code(),
            forall|j: int|
                0 <= j < 512 && j != i ==> #[trigger] final(self).code_at(j) == old(self).code_at(j),
    {
        let bi = i / 4;
        let shift: u8 = ((i % 4) * 2) as u8;
        let mut bytes = self.to_bytes();
        let old_byte = bytes[bi];
        let c = v.to_bits();
        let new_byte = (old_byte & !(0b11u8 << shift)) | (c << shift);
        bytes[bi] = new_byte;
        let ghost nb = bytes@;
        *self = Self::from_bytes(&bytes);
        proof {
            lemma_bytes_words_roundtrip(nb);
            lemma_set_codes(*old(self), *self, i as int, c, shift);
        }
    }

    /// Byte `bi` of the block.
    fn byte_at(&self, bi: usize) -> (r: u8)
        requires
            bi < BLOCK_BYTES,
        ensures
            r == self.bytes()[bi as int],
    {
        let w = self.0[bi / 8];
        let j = bi % 8;
        ((w >> (56 - j * 8) as u64) & 0xff) as u8
    }

    /// The block as 128 bytes.
    fn to_bytes(&self) -> (r: [u8; BLOCK_BYTES])
        ensures
            r@ == self.bytes(),
    {
        words_to_bytes(&self.0)
    }

    /// The block that 128 bytes spell.
    fn from_bytes(buf: &[u8; BLOCK_BYTES]) -> (r: Self)
        ensures
            r.0@ == spec_bytes_to_words(buf@),
    {
        Sign2Block(bytes_to_words(buf))
    }
}

/// A block whose byte `i / 4` had field `i % 4` rewritten to `c` differs from
/// the old block at position `i` only.
proof fn lemma_set_codes(old: Sign2Block, new: Sign2Block, i: int, c: u8, shift: u8)
    requires
        0 <= i < 512,
        c < 4,
        shift == 2 * (i % 4),
        new.bytes() == old.bytes().update(
            i / 4,
            (old.bytes()[i / 4] & !(3u8 << shift)) | (c << shift),
        ),
    ensures
        new.code_at(i) == c,
        forall|j: int| 0 <= j < 512 && j != i ==> #[trigger] new.code_at(j) == old.code_at(j),
{
    let ob = old.bytes()[i / 4];
    lemma_pair_code_update(ob, c, shift, shift);
    assert forall|j: int| 0 <= j < 512 && j != i implies #[trigger] new.code_at(j) == old.code_at(
        j,
    ) by {
        if j / 4 == i / 4 {
            lemma_pair_code_update(ob, c, shift, (2 * (j % 4)) as u8);
        }
    }
}

/// Rewriting one two-bit field of a byte changes that field only.
proof fn lemma_pair_code_update(b: u8, c: u8, s: u8, t: u8)
    requires
        c < 4,
        s < 8,
        s % 2 == 0,
        t < 8,
        t % 2 == 0,
    ensures
        ((((b & !(3u8 << s)) | (c << s)) >> t) & 3u8) == (if t == s {
            c
        } else {
            (b >> t) & 3u8
        }),
{
    assert(((((b & !(3u8 << s)) | (c << s)) >> t) & 3u8) == (if t == s {
        c
    } else {
        (b >> t) & 3u8
    })) by (bit_vector)
        requires
            c < 4,
            s < 8,
            s % 2 == 0,
            t < 8,
            t % 2 == 0,
    ;
}

/// Every two-bit field of the all-zero block is zero.
proof fn lemma_zero_block_codes(z: Sign2Block)
    requires
        forall|i: int| 0 <= i < 16 ==> z.0@[i] == 0,
    ensures
        forall|i: int| 0 <= i < 512 ==> #[trigger] z.code_at(i) == 0,
{
    assert forall|i: int| 0 <= i < 512 implies #[trigger] z.code_at(i) == 0 by {
        assert(word_byte(0u64, (i / 4) % 8) == 0) by {
            let z = 0u64;
            let sh = (56 - 8 * ((i / 4) % 8)) as u64;
            assert((z >> sh) & 0xff == 0) by (bit_vector)
                requires
                    z == 0,
            ;
        }
        let b = 0u8;
        let t = (2 * (i % 4)) as u8;
        assert((b >> t) & 3u8 == 0) by (bit_vector)
            requires
                b == 0,
        ;
    }
}

/// Packs a sequence of sign values into blocks of 512, filling the tail of
/// the last block with the spare code.
pub fn pack(values: &[Sign2]) -> (blocks: Vec<Sign2Block>)
    ensures
        is_packing_of(blocks@, values@),
{
    let n = values.len();
    let mut blocks: Vec<Sign2Block> = Vec::new();
    let mut start: usize = 0;
    while start < n
        invariant
            n == values@.len(),
            start <= n,
            start == n || start == 512 * blocks.len(),
            blocks.len() == (start + 511) / 512,
            forall|b: int, i: int|
                0 <= b < blocks.len() && 0 <= i < 512 ==> #[trigger] blocks@[b].code_at(i)
                    == packed_code(values@, 512 * b + i),
        decreases n - start,
    {
        let rem = n - start;
        let cnt = if rem < VALUES_PER_BLOCK {
            rem
        } else {
            VALUES_PER_BLOCK
        };
        let mut blk = Sign2Block::zero();
        for i in 0..cnt
            invariant
                n == values@.len(),
                start + cnt <= n,
                cnt <= 512,
                start == 512 * blocks.len(),
                forall|j: int| 0 <= j < i ==> #[trigger] blk.code_at(j) == values@[start + j].code(),
        {
            blk.set(i, values[start + i]);
        }
        for i in cnt..VALUES_PER_BLOCK
            invariant
                n == values@.len(),
                start + cnt <= n,
                cnt <= 512,
                forall|j: int| 0 <= j < cnt ==> #[trigger] blk.code_at(j) == values@[start + j].code(),
                forall|j: int| cnt <= j < i ==> #[trigger] blk.code_at(j) == 3,
        {
            blk.set(i, Sign2::Spare);
        }
        let ghost old_blocks = blocks@;
        blocks.push(blk);
        assert forall|b: int, i: int|
            0 <= b < blocks.len() && 0 <= i < 512 implies #[trigger] blocks@[b].code_at(i)
                == packed_code(values@, 512 * b + i) by {
            if b == blocks.len() - 1 {
                assert(512 * b == start);
                if i < cnt {
                } else {
                    assert(blk.code_at(i) == 3);
                }
            } else {
                assert(blocks@[b] == old_blocks[b]);
            }
        }
        start = start + cnt;
        assert(blocks.len() == (start + 511) / 512) by (nonlinear_arith)
            requires
                start - cnt == 512 * (blocks.len() - 1),
                0 < cnt <= 512,
        ;
    }
    blocks
}

/// Reads the first `len` values out of a sequence of blocks (fewer if the blocks run out).
pub fn unpack(blocks: &[Sign2Block], len: usize) -> (out: Vec<Sign2>)
    ensures
        is_unpacking_of(out@, blocks@, len as int),
{
    let mut out: Vec<Sign2> = Vec::new();
    let mut b: usize = 0;
    while b < blocks.len() && out.len() < len
        invariant
            b <= blocks@.len(),
            out.len() <= len,
            out.len() == len || out.len() == 512 * b,
            out.len() == len ==> 512 * b >= len,
            forall|k: int| 0 <= k < out.len() ==> #[trigger] out@[k].code() == blocks@[k / 512].code_at(
                k % 512,
            ),
        decreases blocks@.len() - b,
    {
        let mut i: usize = 0;
        while i < VALUES_PER_BLOCK && out.len() < len
            invariant
                b < blocks@.len(),
                i <= 512,
                out.len() == 512 * b + i,
                out.len() <= len,
                forall|k: int| 0 <= k < out.len() ==> #[trigger] out@[k].code() == blocks@[k
                    / 512].code_at(k % 512),
            decreases 512 - i,
        {
            let v = blocks[b].get(i);
            let ghost k = out.len() as int;
            out.push(v);
            assert(k / 512 == b && k % 512 == i) by (nonlinear_arith)
                requires
                    k == 512 * b + i,
                    i < 512,
            ;
            i = i + 1;
        }
        b = b + 1;
    }
    out
}

} // verus!
