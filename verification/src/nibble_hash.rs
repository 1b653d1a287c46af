//! Nibble hash matrix: a 2 x 4 byte state mixed by ADD, rotate and XOR,
//! folded into a pair of bytes, and the 16 x 16 grid ids built from it.
//!
//! The state is held row-major in eight bytes: entries 0..4 are row 0 (lo),
//! entries 4..8 row 1 (hi).
use vstd::prelude::*;

verus! {

/// Sum of two bytes modulo 256.
pub open spec fn add8(x: u8, y: u8) -> u8 {
    ((x as int + y as int) % 256) as u8
}

/// Product of two bytes modulo 256.
pub open spec fn mul8(x: u8, y: u8) -> u8 {
    ((x as int * y as int) % 256) as u8
}

/// Rotation of a byte left by `r` (1..=7) bits.
pub open spec fn rotl8(x: u8, r: u8) -> u8 {
    (x << r) | (x >> ((8 - r) as u8))
}

/// The starting state, seeded from the input length modulo 256.
pub open spec fn initial_state(len: u8) -> Seq<u8> {
    seq![
        len,
        mul8(len, 3),
        mul8(len, 7),
        mul8(len, 11),
        mul8(len, 5),
        mul8(len, 13),
        mul8(len, 17),
        mul8(len, 19),
    ]
}

/// Byte `b` at position `i` mixed into column `i % 4`: row 0 by ADD, rotate
/// and XOR, then row 1 by XOR, ADD of the new row-0 entry, and rotate.
pub open spec fn absorb(m: Seq<u8>, i: int, b: u8) -> Seq<u8> {
    let col = i % 4;
    let r0 = rotl8(add8(m[col], b), (col + 1) as u8) ^ b;
    let r1 = rotl8(add8(m[4 + col] ^ b, r0), (((col + 2) % 4) + 1) as u8);
    m.update(col, r0).update(4 + col, r1)
}

/// The state after absorbing the first `n` bytes.
pub open spec fn absorb_prefix(data: Seq<u8>, n: int) -> Seq<u8>
    decreases n,
{
    if n <= 0 {
        initial_state((data.len() % 256) as u8)
    } else {
        absorb(absorb_prefix(data, n - 1), n - 1, data[n - 1])
    }
}

/// One column step of the finalizer, mixing in the neighbouring columns.
pub open spec fn finalize_col(m: Seq<u8>, col: int) -> Seq<u8> {
    let nc = (col + 1) % 4;
    let nc2 = (col + 2) % 4;
    let r0 = rotl8(add8(m[col], m[nc]), (col + 1) as u8) ^ m[4 + nc2];
    let m1 = m.update(col, r0);
    let r1 = rotl8(add8(m1[4 + col], r0), (((col + 2) % 4) + 1) as u8) ^ m1[nc];
    m1.update(4 + col, r1)
}

/// The finalizer after `k` column steps (two rounds of four columns in all).
pub open spec fn finalize_steps(m: Seq<u8>, k: int) -> Seq<u8>
    decreases k,
{
    if k <= 0 {
        m
    } else {
        finalize_col(finalize_steps(m, k - 1), (k - 1) % 4)
    }
}

/// The hash of `data`: the XOR of row 1 and of row 0 of the finalized state, as `(hi, lo)`.
pub open spec fn spec_nibble_hash(data: Seq<u8>) -> (u8, u8) {
    let m = finalize_steps(absorb_prefix(data, data.len() as int), 8);
    (m[4] ^ m[5] ^ m[6] ^ m[7], m[0] ^ m[1] ^ m[2] ^ m[3])
}

/// Rotates a byte left by `r` (1..=7) bits.
fn rotl(x: u8, r: u8) -> (y: u8)
    requires
        1 <= r <= 7,
    ensures
        y == rotl8(x, r),
{
    (x << r) | (x >> (8 - r))
}

/// Adds two bytes modulo 256.
fn add_wrap(x: u8, y: u8) -> (z: u8)
    ensures
        z == add8(x, y),
{
    ((x as u16 + y as u16) % 256) as u8
}

/// Multiplies two bytes modulo 256.
fn mul_wrap(x: u8, y: u8) -> (z: u8)
    ensures
        z == mul8(x, y),
{
    let a = x as u32;
    let b = y as u32;
    assert(a * b <= 255 * 255) by (nonlinear_arith)
        requires
            a <= 255,
            b <= 255,
    ;
    ((a * b) % 256) as u8
}

/// Hashes arbitrary bytes to a pair `(hash_hi, hash_lo)`.
pub fn nibble_hash_matrix(data: &[u8]) -> (r: (u8, u8))
    ensures
        r == spec_nibble_hash(data@),
{
    let len = (data.len() % 256) as u8;
    let mut m: [u8; 8] = [
        len,
        mul_wrap(len, 3),
        mul_wrap(len, 7),
        mul_wrap(len, 11),
        mul_wrap(len, 5),
        mul_wrap(len, 13),
        mul_wrap(len, 17),
        mul_wrap(len, 19),
    ];
    assert(m@ =~= absorb_prefix(data@, 0));
    for i in 0..data.len()
        invariant
            m@ == absorb_prefix(data@, i as int),
            m@.len() == 8,
    {
        let b = data[i];
        let col = i % 4;
        let rot0 = (col + 1) as u8;
        let rot1 = (((col + 2) % 4) + 1) as u8;
        let r0 = rotl(add_wrap(m[col], b), rot0) ^ b;
        m[col] = r0;
        let r1 = rotl(add_wrap(m[4 + col] ^ b, r0), rot1);
        m[4 + col] = r1;
        assert(m@ =~= absorb(absorb_prefix(data@, i as int), i as int, b));
    }
    let ghost absorbed = m@;
    for k in 0..8usize
        invariant
            m@ == finalize_steps(absorbed, k as int),
            m@.len() == 8,
    {
        let col = k % 4;
        let nc = (col + 1) % 4;
        let nc2 = (col + 2) % 4;
        let r0 = rotl(add_wrap(m[col], m[nc]), (col + 1) as u8) ^ m[4 + nc2];
        m[col] = r0;
        let r1 = rotl(add_wrap(m[4 + col], r0), (((col + 2) % 4) + 1) as u8) ^ m[nc];
        m[4 + col] = r1;
        assert(m@ =~= finalize_col(finalize_steps(absorbed, k as int), col as int));
    }
    let lo = m[0] ^ m[1] ^ m[2] ^ m[3];
    let hi = m[4] ^ m[5] ^ m[6] ^ m[7];
    (hi, lo)
}

/// The 16 x 16 grid cell of a hash: the high nibbles of `hi` and `lo`.
pub fn hash_to_grid(hi: u8, lo: u8) -> (r: (u8, u8))
    ensures
        r == ((hi / 16) as u8, (lo / 16) as u8),
{
    assert(hi >> 4 == hi / 16 && lo >> 4 == lo / 16) by (bit_vector);
    (hi >> 4, lo >> 4)
}

/// The 16-bit nibble id: position class, the high nibbles of `hash_hi` and
/// `hash_lo`, and the category class, from the top nibble down.
pub fn pack_nibble_id(hash_hi: u8, hash_lo: u8, c_class: u8, p_class: u8) -> (r: u16)
    ensures
        r == (p_class % 16) * 4096 + (hash_hi / 16) * 256 + (hash_lo / 16) * 16 + c_class % 16,
{
    let hn = (hash_hi >> 4) as u16;
    let ln = (hash_lo >> 4) as u16;
    let p = p_class as u16;
    let c = c_class as u16;
    assert(hash_hi >> 4 == hash_hi / 16 && hash_lo >> 4 == hash_lo / 16 && (hn < 16 && ln < 16 && p
        < 256 && c < 256 ==> ((p & 0xF) << 12u16) | (hn << 8u16) | (ln << 4u16) | (c & 0xF) == (p
        % 16) * 4096 + hn * 256 + ln * 16 + c % 16)) by (bit_vector);
    ((p & 0xF) << 12) | (hn << 8) | (ln << 4) | (c & 0xF)
}

/// One round of the finalizer: its four column steps, columns 0 to 3 in order.
pub open spec fn finalize_round(m: Seq<u8>) -> Seq<u8> {
    finalize_col(finalize_col(finalize_col(finalize_col(m, 0), 1), 2), 3)
}

/// The XOR of row 1 and the XOR of row 0 of a state, as `(hi, lo)`.
pub open spec fn fold_rows(m: Seq<u8>) -> (u8, u8) {
    (m[4] ^ m[5] ^ m[6] ^ m[7], m[0] ^ m[1] ^ m[2] ^ m[3])
}

/// Law: the hash absorbs every byte into the length-seeded state, then runs the
/// finalizer for two full rounds of four column steps, and folds the rows.
pub proof fn lemma_hash_two_rounds(data: Seq<u8>)
    ensures
        spec_nibble_hash(data) == fold_rows(
            finalize_round(finalize_round(absorb_prefix(data, data.len() as int))),
        ),
{
    reveal_with_fuel(finalize_steps, 9);
}

} // verus!
