//! Object bit capsules: a byte string folded into 1024 bits.
//!
//! The bytes are read as a cyclic MSB-first bit stream and cut into 4-bit
//! grams by a window sliding one bit at a time; gram `i` with value `g`
//! toggles capsule bit `(4 i + g) mod 1024`.
use vstd::prelude::*;
use crate::popcount::{popcount, popcount64, lemma_popcount_le_64, lemma_popcount_complement};
use crate::bitset::{word_bit, lemma_bitwise_bit, lemma_popcount_positions, lemma_count_union_bound};
use crate::text::{decimal, hex16, push_char, push_decimal, push_hex16, str_eq};
use vstd::string::StringExecFns;

verus! {

/// inv4(x) = XNOR(x, 0): the low nibble of `x` inverted.
pub fn inv4(x: u8) -> (r: u8)
    ensures
        r == 15 - x % 16,
{
    assert((x ^ 0x0F) & 0x0F == 15 - x % 16) by (bit_vector);
    (x ^ 0x0F) & 0x0F
}

/// Leading zeros of the low nibble, counted from bit 3 down (4 for zero).
pub open spec fn spec_clz4(x: u8) -> u8 {
    let v = x % 16;
    if v >= 8 {
        0
    } else if v >= 4 {
        1
    } else if v >= 2 {
        2
    } else if v >= 1 {
        3
    } else {
        4
    }
}

/// Trailing zeros of the low nibble, counted from bit 0 up (4 for zero).
pub open spec fn spec_ctz4(x: u8) -> u8 {
    let v = x % 16;
    if v == 0 {
        4
    } else if v % 2 == 1 {
        0
    } else if (v / 2) % 2 == 1 {
        1
    } else if (v / 4) % 2 == 1 {
        2
    } else {
        3
    }
}

/// Set bits of the nibble masks 0, 1, 3, 7, 15, 8, 12, 14.
proof fn lemma_small_popcounts()
    ensures
        popcount(0u64) == 0,
        popcount(1u64) == 1,
        popcount(3u64) == 2,
        popcount(7u64) == 3,
        popcount(15u64) == 4,
        popcount(8u64) == 1,
        popcount(12u64) == 2,
        popcount(14u64) == 3,
{
    assert(popcount(0u64) == 0);
    assert(popcount(1u64) == popcount(0u64) + 1);
    assert(popcount(3u64) == popcount(1u64) + 1);
    assert(popcount(7u64) == popcount(3u64) + 1);
    assert(popcount(15u64) == popcount(7u64) + 1);
    assert(popcount(2u64) == popcount(1u64));
    assert(popcount(4u64) == popcount(2u64));
    assert(popcount(8u64) == popcount(4u64));
    assert(popcount(6u64) == popcount(3u64));
    assert(popcount(12u64) == popcount(6u64));
    assert(popcount(14u64) == popcount(7u64));
}

/// clz4: smear the nibble towards bit 0, then 4 minus the set bits.
pub fn clz4(x: u8) -> (r: u8)
    ensures
        r == spec_clz4(x),
{
    let v = x & 0x0F;
    let m = (v | (v >> 1) | (v >> 2) | (v >> 3)) & 0x0F;
    assert((v < 16 ==> ((v | (v >> 1u8) | (v >> 2u8) | (v >> 3u8)) & 0x0F) == (if v >= 8 {
        15u8
    } else if v >= 4 {
        7u8
    } else if v >= 2 {
        3u8
    } else if v >= 1 {
        1u8
    } else {
        0u8
    })) && x & 0x0F == x % 16 && x & 0x0F < 16) by (bit_vector);
    proof {
        lemma_small_popcounts();
    }
    let c = popcount64(m as u64);
    4 - c as u8
}

/// ctz4: smear the nibble towards bit 3, then 4 minus the set bits.
pub fn ctz4(x: u8) -> (r: u8)
    ensures
        r == spec_ctz4(x),
{
    let v = x & 0x0F;
    let m = (v | (v << 1) | (v << 2) | (v << 3)) & 0x0F;
    assert((v < 16 ==> ((v | (v << 1u8) | (v << 2u8) | (v << 3u8)) & 0x0F) == (if v == 0 {
        0u8
    } else if v % 2 == 1 {
        15u8
    } else if (v / 2) % 2 == 1 {
        14u8
    } else if (v / 4) % 2 == 1 {
        12u8
    } else {
        8u8
    })) && x & 0x0F == x % 16 && x & 0x0F < 16) by (bit_vector);
    proof {
        lemma_small_popcounts();
    }
    let c = popcount64(m as u64);
    4 - c as u8
}

/// Bit `p` of a byte string read MSB-first (0 or 1).
pub open spec fn stream_bit(bytes: Seq<u8>, p: int) -> u8 {
    (bytes[p / 8] >> ((7 - p % 8) as u8)) & 1u8
}

/// The first `b` bits of the cyclic window starting at bit `i`, as a number.
pub open spec fn window_prefix(bytes: Seq<u8>, i: int, b: nat) -> nat
    decreases b,
{
    if b == 0 {
        0
    } else {
        2 * window_prefix(bytes, i, (b - 1) as nat) + stream_bit(
            bytes,
            (i + b - 1) % (8 * bytes.len() as int),
        ) as nat
    }
}

/// Gram `i`: the four bits of the cyclic stream from bit `i`, the first one most significant.
pub open spec fn gram_at(bytes: Seq<u8>, i: int) -> u8 {
    window_prefix(bytes, i, 4) as u8
}

/// The 4-bit grams of a byte string read as a cyclic bit stream, one gram
/// per bit position (`8 * len` grams, each 0..=15); empty for empty input.
pub fn n4_gram_circ(bytes: &[u8]) -> (out: Vec<u8>)
    requires
        8 * bytes@.len() <= usize::MAX,
    ensures
        out@.len() == 8 * bytes@.len(),
        forall|i: int| 0 <= i < out@.len() ==> #[trigger] out@[i] == gram_at(bytes@, i),
        forall|i: int| 0 <= i < out@.len() ==> #[trigger] out@[i] < 16,
{
    let n_bits = bytes.len() * 8;
    if n_bits == 0 {
        return Vec::new();
    }
    let mut out: Vec<u8> = Vec::new();
    for i in 0..n_bits
        invariant
            n_bits == 8 * bytes@.len(),
            n_bits > 0,
            out@.len() == i,
            forall|ii: int| 0 <= ii < i ==> #[trigger] out@[ii] == gram_at(bytes@, ii),
            forall|ii: int| 0 <= ii < i ==> #[trigger] out@[ii] < 16,
    {
        let mut gram: u8 = 0;
        for b in 0..4u8
            invariant
                n_bits == 8 * bytes@.len(),
                n_bits > 0,
                i < n_bits,
                gram == window_prefix(bytes@, i as int, b as nat),
                gram < pow2_small(b as nat),
        {
            let bit_pos = (i + b as usize) % n_bits;
            let byte_idx = bit_pos / 8;
            let bit_off = 7 - (bit_pos % 8);
            let byte = bytes[byte_idx];
            let sh = bit_off as u8;
            let bit = (byte >> sh) & 1;
            assert((byte >> sh) & 1 <= 1) by (bit_vector);
            assert(gram < 8 && bit <= 1 ==> (gram << 1u8) | bit == 2 * gram + bit) by (bit_vector);
            gram = (gram << 1) | bit;
        }
        assert(gram & 0x0F == gram) by (bit_vector)
            requires
                gram < 16,
        ;
        out.push(gram & 0x0F);
    }
    out
}

/// The capsule bit that gram `i` with value `g` toggles.
pub open spec fn gram_address(i: int, g: u8) -> int {
    (4 * i + g) % 1024
}

/// `ws` with bit `q` toggled.
pub open spec fn toggle_bit(ws: Seq<u64>, q: int) -> Seq<u64> {
    ws.update(q / 64, ws[q / 64] ^ (1u64 << ((q % 64) as u64)))
}

/// The capsule words after folding in the first `n` grams of `bytes`.
pub open spec fn capsule_prefix(bytes: Seq<u8>, n: int) -> Seq<u64>
    decreases n,
{
    if n <= 0 {
        Seq::new(16, |k: int| 0u64)
    } else {
        toggle_bit(capsule_prefix(bytes, n - 1), gram_address(n - 1, gram_at(bytes, n - 1)))
    }
}

/// The capsule of a byte string: every gram folded in by XOR.
pub open spec fn capsule_of(bytes: Seq<u8>) -> Seq<u64> {
    capsule_prefix(bytes, 8 * bytes.len() as int)
}

/// Set bits of the first `n` words.
pub open spec fn sum_popcount(a: Seq<u64>, n: int) -> nat
    decreases n,
{
    if n <= 0 {
        0
    } else {
        sum_popcount(a, n - 1) + popcount(a[n - 1])
    }
}

/// Differing bits of the first `n` word pairs.
pub open spec fn sum_popcount_xor(a: Seq<u64>, b: Seq<u64>, n: int) -> nat
    decreases n,
{
    if n <= 0 {
        0
    } else {
        sum_popcount_xor(a, b, n - 1) + popcount(a[n - 1] ^ b[n - 1])
    }
}

/// Agreeing bits of the first `n` word pairs.
pub open spec fn sum_popcount_xnor(a: Seq<u64>, b: Seq<u64>, n: int) -> nat
    decreases n,
{
    if n <= 0 {
        0
    } else {
        sum_popcount_xnor(a, b, n - 1) + popcount(!(a[n - 1] ^ b[n - 1]))
    }
}

/// 1024-bit object capsule, handled by XNOR, popcount and cyclic XOR only.
#[derive(Clone, Copy, PartialEq, Eq, Debug, Default)]
pub struct ObjectCapsule(pub [u64; 16]);

impl ObjectCapsule {
    /// Folds the cyclic 4-bit grams of `bytes` into a capsule: gram `i` with
    /// value `g` toggles bit `(4 i + g) mod 1024`.
    pub fn encode(bytes: &[u8]) -> (r: Self)
        requires
            8 * bytes@.len() <= usize::MAX,
        ensures
            r.0@ == capsule_of(bytes@),
    {
        let grams = n4_gram_circ(bytes);
        let mut words = [0u64; 16];
        assert(words@ =~= capsule_prefix(bytes@, 0));
        for i in 0..grams.len()
            invariant
                grams@.len() == 8 * bytes@.len(),
                forall|ii: int| 0 <= ii < grams@.len() ==> #[trigger] grams@[ii] == gram_at(bytes@, ii),
                forall|ii: int| 0 <= ii < grams@.len() ==> #[trigger] grams@[ii] < 16,
                words@ == capsule_prefix(bytes@, i as int),
        {
            let g = grams[i];
            let bit = ((i % 256) * 4 + g as usize) % 1024;
            assert(bit == gram_address(i as int, g)) by (nonlinear_arith)
                requires
                    bit == ((i % 256) * 4 + g) % 1024,
                    g < 16,
                    i >= 0,
            {
                assert(i == 256 * (i / 256) + i % 256);
                assert(4 * i + g == 1024 * (i / 256) + (4 * (i % 256) + g));
            }
            let w = bit / 64;
            let sh = (bit % 64) as u64;
            words[w] = words[w] ^ (1u64 << sh);
            assert(words@ =~= toggle_bit(capsule_prefix(bytes@, i as int), bit as int));
        }
        ObjectCapsule(words)
    }

    /// XNOR + popcount: the number of agreeing bits (1024 for equal capsules).
    pub fn xnor_popcount(&self, other: &Self) -> (r: u32)
        ensures
            r == sum_popcount_xnor(self.0@, other.0@, 16),
    {
        let mut total: u32 = 0;
        for i in 0..16
            invariant
                total == sum_popcount_xnor(self.0@, other.0@, i as int),
                total <= 64 * i,
        {
            proof {
                lemma_popcount_le_64(!(self.0@[i as int] ^ other.0@[i as int]));
            }
            total = total + popcount64(!(self.0[i] ^ other.0[i]));
        }
        total
    }

    /// L1 distance = Hamming distance = popcount of the XOR.
    pub fn xnor_l1(&self, other: &Self) -> (r: u32)
        ensures
            r == sum_popcount_xor(self.0@, other.0@, 16),
    {
        let mut total: u32 = 0;
        for i in 0..16
            invariant
                total == sum_popcount_xor(self.0@, other.0@, i as int),
                total <= 64 * i,
        {
            proof {
                lemma_popcount_le_64(self.0@[i as int] ^ other.0@[i as int]);
            }
            total = total + popcount64(self.0[i] ^ other.0[i]);
        }
        total
    }

    /// Number of set bits of the capsule.
    pub fn popcount(&self) -> (r: u32)
        ensures
            r == sum_popcount(self.0@, 16),
            r <= 1024,
    {
        let mut total: u32 = 0;
        for i in 0..16
            invariant
                total == sum_popcount(self.0@, i as int),
                total <= 64 * i,
        {
            proof {
                lemma_popcount_le_64(self.0@[i as int]);
            }
            total = total + popcount64(self.0[i]);
        }
        total
    }
}

/// The type name a nibble stands for.
pub open spec fn type_label(n: u8) -> Seq<char> {
    let v = n % 16;
    if v == 0 {
        "u8"@
    } else if v == 1 {
        "u16"@
    } else if v == 2 {
        "u32"@
    } else if v == 3 {
        "u64"@
    } else if v == 4 {
        "usize"@
    } else if v == 5 {
        "i8"@
    } else if v == 6 {
        "i16"@
    } else if v == 7 {
        "i32"@
    } else if v == 8 {
        "i64"@
    } else if v == 9 {
        "isize"@
    } else if v == 10 {
        "bool"@
    } else if v == 11 {
        "f32"@
    } else if v == 12 {
        "f64"@
    } else if v == 13 {
        "&[u8]"@
    } else if v == 14 {
        "&str"@
    } else {
        "()"@
    }
}

/// The default value expression written for a type name.
pub open spec fn default_of(t: Seq<char>) -> Seq<char> {
    if t == "u8"@ || t == "u16"@ || t == "u32"@ || t == "u64"@ || t == "usize"@ || t == "i8"@
        || t == "i16"@ || t == "i32"@ || t == "i64"@ || t == "isize"@ {
        "0"@
    } else if t == "bool"@ {
        "false"@
    } else if t == "f32"@ || t == "f64"@ {
        "0.0"@
    } else if t == "&[u8]"@ {
        "&[]"@
    } else if t == "&str"@ {
        "\"\""@
    } else if t == "()"@ {
        ""@
    } else {
        "0"@
    }
}

/// Consonant `k` (0..13) of the identifier syllables.
pub open spec fn consonant(k: int) -> char {
    seq!['b', 'c', 'd', 'f', 'g', 'h', 'j', 'k', 'l', 'm', 'n', 'p', 'r'][k]
}

/// Vowel `v` (0..5) of the identifier syllables.
pub open spec fn vowel(v: int) -> char {
    seq!['a', 'e', 'i', 'o', 'u'][v]
}

/// Syllable `i` (0..64): consonant `i / 5` then vowel `i % 5` ("ba", "be", ..., "ro").
pub open spec fn syllable(i: u64) -> Seq<char> {
    seq![consonant((i / 5) as int), vowel((i % 5) as int)]
}

/// The identifier derived from a 64-bit hash: "s_" and four syllables chosen
/// by bits 48.., 32.., 16.. and 0.. (six bits each).
pub open spec fn stub_name(hash: u64) -> Seq<char> {
    "s_"@ + syllable((hash >> 48u64) & 0x3F) + syllable((hash >> 32u64) & 0x3F) + syllable(
        (hash >> 16u64) & 0x3F,
    ) + syllable(hash & 0x3F)
}

/// Number of arguments or fields of a stub: the low three bits of word 2, at most 4.
pub open spec fn stub_arity(c: Seq<u64>) -> int {
    let n = (c[2] & 7u64) as int;
    if n < 4 {
        n
    } else {
        4
    }
}

/// Type of argument or field `i` of a stub: the low nibble of word `3 + i`.
pub open spec fn stub_arg_type(c: Seq<u64>, i: int) -> Seq<char> {
    type_label((c[3 + i] & 0xFu64) as u8)
}

/// Return type of a function stub: the low nibble of word 8.
pub open spec fn stub_ret_type(c: Seq<u64>) -> Seq<char> {
    type_label((c[8] & 0xFu64) as u8)
}

/// Whether the stub is a struct: the top bit of word 15.
pub open spec fn stub_is_struct(c: Seq<u64>) -> bool {
    (c[15] >> 63u64) & 1u64 == 1u64
}

/// The field lines of a struct stub, for its first `n` fields.
pub open spec fn stub_fields(c: Seq<u64>, n: int) -> Seq<char>
    decreases n,
{
    if n <= 0 {
        seq![]
    } else {
        stub_fields(c, n - 1) + "    pub f"@ + decimal((n - 1) as nat) + ": "@ + stub_arg_type(
            c,
            n - 1,
        ) + ",\n"@
    }
}

/// The parameter list of a function stub, for its first `n` parameters.
pub open spec fn stub_params(c: Seq<u64>, n: int) -> Seq<char>
    decreases n,
{
    if n <= 0 {
        seq![]
    } else {
        (if n == 1 {
            seq![]
        } else {
            stub_params(c, n - 1) + ", "@
        }) + "a"@ + decimal((n - 1) as nat) + ": "@ + stub_arg_type(c, n - 1)
    }
}

/// The Rust stub a capsule decodes to.
pub open spec fn stub_text(c: Seq<u64>) -> Seq<char> {
    let name = stub_name(c[0] ^ c[1]);
    if stub_is_struct(c) {
        "#[derive(Debug, Clone)]\npub struct "@ + name + " {\n"@ + stub_fields(c, stub_arity(c))
            + "}\n"@
    } else {
        "pub fn "@ + name + "("@ + stub_params(c, stub_arity(c)) + ") -> "@ + stub_ret_type(c)
            + " { "@ + default_of(stub_ret_type(c)) + " }\n"@
    }
}

/// The hexadecimal text of the first `n` words, 16 lower-case digits per word.
pub open spec fn hex_text(ws: Seq<u64>, n: int) -> Seq<char>
    decreases n,
{
    if n <= 0 {
        seq![]
    } else {
        hex_text(ws, n - 1) + hex16(ws[n - 1])
    }
}

impl ObjectCapsule {
    /// The capsule as 256 lower-case hexadecimal digits, 16 per word, word by word.
    pub fn to_hex(&self) -> (r: String)
        ensures
            r@ == hex_text(self.0@, 16),
    {
        let mut s = String::new();
        for i in 0..16
            invariant
                s@ == hex_text(self.0@, i as int),
        {
            push_hex16(&mut s, self.0[i]);
        }
        s
    }

    /// The deterministic Rust stub a capsule decodes to: a struct with up to
    /// four fields when the top bit of word 15 is set, else a function with
    /// up to four parameters returning the default of its return type.
    pub fn decode_to_stub(&self) -> (r: String)
        ensures
            r@ == stub_text(self.0@),
    {
        let c = &self.0;
        let name = fmt_stub_name(c[0] ^ c[1]);
        let w2 = c[2];
        assert(w2 & 7 < 8) by (bit_vector);
        let n_args = (w2 & 0x7) as usize;
        let n = if n_args < 4 {
            n_args
        } else {
            4
        };
        let ret_type = nibble_to_type((c[8] & 0xF) as u8);
        let is_struct = (c[15] >> 63) & 1 == 1;
        if is_struct {
            let mut s = String::from_str("#[derive(Debug, Clone)]\npub struct ");
            s.append(name.as_str());
            s.append(" {\n");
            let ghost head = s@;
            for i in 0..n
                invariant
                    n == stub_arity(c@),
                    n <= 4,
                    s@ == head + stub_fields(c@, i as int),
            {
                let t = nibble_to_type((c[3 + i] & 0xF) as u8);
                s.append("    pub f");
                push_decimal(&mut s, i as u64);
                s.append(": ");
                s.append(t);
                s.append(",\n");
                assert(s@ =~= head + stub_fields(c@, i + 1));
            }
            s.append("}\n");
            s
        } else {
            let mut s = String::from_str("pub fn ");
            s.append(name.as_str());
            s.append("(");
            let ghost head = s@;
            for i in 0..n
                invariant
                    n == stub_arity(c@),
                    n <= 4,
                    s@ == head + stub_params(c@, i as int),
            {
                let t = nibble_to_type((c[3 + i] & 0xF) as u8);
                if i > 0 {
                    s.append(", ");
                }
                s.append("a");
                push_decimal(&mut s, i as u64);
                s.append(": ");
                s.append(t);
                assert(s@ =~= head + stub_params(c@, i + 1));
            }
            s.append(") -> ");
            s.append(ret_type);
            s.append(" { ");
            s.append(type_default(ret_type));
            s.append(" }\n");
            s
        }
    }
}

/// The identifier of a 64-bit hash: "s_" and four consonant-vowel syllables.
fn fmt_stub_name(hash: u64) -> (r: String)
    ensures
        r@ == stub_name(hash),
{
    let mut s = String::from_str("s_");
    assert((hash >> 48u64) & 0x3F < 64 && (hash >> 32u64) & 0x3F < 64 && (hash >> 16u64) & 0x3F
        < 64 && hash & 0x3F < 64) by (bit_vector);
    push_syllable(&mut s, (hash >> 48) & 0x3F);
    push_syllable(&mut s, (hash >> 32) & 0x3F);
    push_syllable(&mut s, (hash >> 16) & 0x3F);
    push_syllable(&mut s, hash & 0x3F);
    s
}

/// Appends syllable `i` (0..64).
fn push_syllable(s: &mut String, i: u64)
    requires
        i < 64,
    ensures
        final(s)@ == old(s)@ + syllable(i),
{
    let k = i / 5;
    let c = match k {
        0 => 'b',
        1 => 'c',
        2 => 'd',
        3 => 'f',
        4 => 'g',
        5 => 'h',
        6 => 'j',
        7 => 'k',
        8 => 'l',
        9 => 'm',
        10 => 'n',
        11 => 'p',
        _ => 'r',
    };
    let v = match i % 5 {
        0 => 'a',
        1 => 'e',
        2 => 'i',
        3 => 'o',
        _ => 'u',
    };
    push_char(s, c);
    push_char(s, v);
    assert(old(s)@ + syllable(i) =~= old(s)@.push(c).push(v));
}

/// The type name a nibble stands for.
fn nibble_to_type(n: u8) -> (r: &'static str)
    ensures
        r@ == type_label(n),
{
    let v = n & 0xF;
    assert(n & 0xF == n % 16) by (bit_vector);
    match v {
        0 => "u8",
        1 => "u16",
        2 => "u32",
        3 => "u64",
        4 => "usize",
        5 => "i8",
        6 => "i16",
        7 => "i32",
        8 => "i64",
        9 => "isize",
        10 => "bool",
        11 => "f32",
        12 => "f64",
        13 => "&[u8]",
        14 => "&str",
        _ => "()",
    }
}

/// The default value expression written for a type name.
fn type_default(t: &str) -> (r: &'static str)
    ensures
        r@ == default_of(t@),
{
    if str_eq(t, "u8") || str_eq(t, "u16") || str_eq(t, "u32") || str_eq(t, "u64") || str_eq(
        t,
        "usize",
    ) || str_eq(t, "i8") || str_eq(t, "i16") || str_eq(t, "i32") || str_eq(t, "i64") || str_eq(
        t,
        "isize",
    ) {
        "0"
    } else if str_eq(t, "bool") {
        "false"
    } else if str_eq(t, "f32") || str_eq(t, "f64") {
        "0.0"
    } else if str_eq(t, "&[u8]") {
        "&[]"
    } else if str_eq(t, "&str") {
        "\"\""
    } else if str_eq(t, "()") {
        ""
    } else {
        "0"
    }
}

/// A text that begins with `head` and ends with `tail`.
proof fn lemma_framed(head: Seq<char>, mid: Seq<char>, tail: Seq<char>)
    requires
        tail.len() > 0,
    ensures
        (head + mid + tail).take(head.len() as int) == head,
        (head + mid + tail).last() == tail.last(),
{
    assert((head + mid + tail).take(head.len() as int) =~= head);
}

/// Every stub ends with a newline and begins either a function or a struct.
pub proof fn lemma_stub_shape(c: Seq<u64>)
    ensures
        stub_text(c).last() == '\n',
        stub_is_struct(c) ==> stub_text(c).take("#[derive(Debug, Clone)]\npub struct "@.len() as int)
            == "#[derive(Debug, Clone)]\npub struct "@,
        !stub_is_struct(c) ==> stub_text(c).take("pub fn "@.len() as int) == "pub fn "@,
{
    let name = stub_name(c[0] ^ c[1]);
    if stub_is_struct(c) {
        reveal_strlit("}\n");
        let head = "#[derive(Debug, Clone)]\npub struct "@;
        let mid = name + " {\n"@ + stub_fields(c, stub_arity(c));
        assert(stub_text(c) =~= head + mid + "}\n"@);
        lemma_framed(head, mid, "}\n"@);
    } else {
        reveal_strlit(" }\n");
        let head = "pub fn "@;
        let mid = name + "("@ + stub_params(c, stub_arity(c)) + ") -> "@ + stub_ret_type(c)
            + " { "@ + default_of(stub_ret_type(c));
        assert(stub_text(c) =~= head + mid + " }\n"@);
        lemma_framed(head, mid, " }\n"@);
    }
}

/// XOR of words commutes, vanishes on equal words and only there.
proof fn lemma_xor_word(x: u64, y: u64)
    by (bit_vector)
    ensures
        x ^ y == y ^ x,
        x ^ x == 0,
        x ^ y == 0 ==> x == y,
{
}

/// Only the zero word has no set bit.
proof fn lemma_popcount_zero(x: u64)
    ensures
        popcount(x) == 0 ==> x == 0,
    decreases x,
{
    if x != 0 {
        lemma_popcount_zero(x / 2);
    }
}

/// The bits where `x` and `z` differ are among those where `x` and `y` differ or
/// `y` and `z` differ.
proof fn lemma_xor_triangle_word(x: u64, y: u64, z: u64)
    ensures
        popcount(x ^ z) <= popcount(x ^ y) + popcount(y ^ z),
{
    vstd::arithmetic::power2::lemma2_to64();
    vstd::arithmetic::power2::lemma2_to64_rest();
    let xz = x ^ z;
    let xy = x ^ y;
    let yz = y ^ z;
    lemma_popcount_positions(xz, 64);
    lemma_popcount_positions(xy, 64);
    lemma_popcount_positions(yz, 64);
    let f = |c: int| word_bit(xz, c);
    let g = |c: int| word_bit(xy, c);
    let h = |c: int| word_bit(yz, c);
    assert forall|c: int| 0 <= c < 64 && #[trigger] f(c) implies g(c) || h(c) by {
        lemma_bitwise_bit(x, z, c as u64);
        lemma_bitwise_bit(x, y, c as u64);
        lemma_bitwise_bit(y, z, c as u64);
    }
    lemma_count_union_bound(f, g, h, 0, 64);
}

/// The Hamming distance over the first `n` words obeys the triangle inequality,
/// and it is zero exactly when the words agree.
pub proof fn lemma_xor_distance(a: Seq<u64>, b: Seq<u64>, c: Seq<u64>, n: int)
    requires
        0 <= n <= a.len(),
        n <= b.len(),
        n <= c.len(),
    ensures
        sum_popcount_xor(a, c, n) <= sum_popcount_xor(a, b, n) + sum_popcount_xor(b, c, n),
        sum_popcount_xor(a, b, n) == 0 <==> forall|i: int| 0 <= i < n ==> #[trigger] a[i] == b[i],
    decreases n,
{
    if n > 0 {
        lemma_xor_distance(a, b, c, n - 1);
        lemma_xor_triangle_word(a[n - 1], b[n - 1], c[n - 1]);
        lemma_popcount_zero(a[n - 1] ^ b[n - 1]);
        lemma_xor_word(a[n - 1], b[n - 1]);
        lemma_xor_word(a[n - 1], a[n - 1]);
        if forall|i: int| 0 <= i < n ==> #[trigger] a[i] == b[i] {
            assert(a[n - 1] == b[n - 1]);
            assert forall|i: int| 0 <= i < n - 1 implies #[trigger] a[i] == b[i] by {
                assert(a[i] == b[i]);
            }
        }
    }
}

/// Law: `xnor_l1` is a metric on capsules. It is zero from a capsule to itself and
/// only there, symmetric, obeys the triangle inequality, and with `xnor_popcount`
/// counts all 1024 bits.
pub proof fn lemma_xnor_l1_is_metric(a: ObjectCapsule, b: ObjectCapsule, c: ObjectCapsule)
    ensures
        sum_popcount_xor(a.0@, a.0@, 16) == 0,
        sum_popcount_xor(a.0@, b.0@, 16) == sum_popcount_xor(b.0@, a.0@, 16),
        sum_popcount_xor(a.0@, c.0@, 16) <= sum_popcount_xor(a.0@, b.0@, 16) + sum_popcount_xor(
            b.0@,
            c.0@,
            16,
        ),
        sum_popcount_xor(a.0@, b.0@, 16) == 0 <==> a == b,
        sum_popcount_xor(a.0@, b.0@, 16) + sum_popcount_xnor(a.0@, b.0@, 16) == 1024,
{
    lemma_xor_count_symmetric(a.0@, b.0@, 16);
    lemma_xnor_complements_l1(a.0@, b.0@, 16);
    lemma_xor_distance(a.0@, b.0@, c.0@, 16);
    if sum_popcount_xor(a.0@, b.0@, 16) == 0 {
        assert(a.0@ =~= b.0@);
        vstd::array::axiom_array_ext_equal(a.0, b.0);
        assert(a.0 =~= b.0);
    }
}

/// The Hamming distance of capsules is symmetric and zero from a capsule to itself.
pub proof fn lemma_xor_count_symmetric(a: Seq<u64>, b: Seq<u64>, n: int)
    requires
        0 <= n <= a.len(),
        n <= b.len(),
    ensures
        sum_popcount_xor(a, b, n) == sum_popcount_xor(b, a, n),
        sum_popcount_xor(a, a, n) == 0,
    decreases n,
{
    if n > 0 {
        lemma_xor_count_symmetric(a, b, n - 1);
        lemma_xor_word(a[n - 1], b[n - 1]);
        lemma_xor_word(a[n - 1], a[n - 1]);
    }
}

/// Agreeing and differing bits of two capsules add up to all 64 bits per word;
/// a capsule agrees with itself everywhere.
pub proof fn lemma_xnor_complements_l1(a: Seq<u64>, b: Seq<u64>, n: int)
    requires
        0 <= n <= a.len(),
        n <= b.len(),
    ensures
        sum_popcount_xnor(a, b, n) + sum_popcount_xor(a, b, n) == 64 * n,
        sum_popcount_xnor(a, a, n) == 64 * n,
    decreases n,
{
    if n > 0 {
        lemma_xnor_complements_l1(a, b, n - 1);
        lemma_popcount_complement(a[n - 1] ^ b[n - 1]);
        lemma_xor_count_symmetric(a, a, n);
        lemma_popcount_complement(a[n - 1] ^ a[n - 1]);
        lemma_xor_word(a[n - 1], a[n - 1]);
        assert(popcount(0u64) == 0);
    }
}

/// A capsule has at most 64 set bits per word.
pub proof fn lemma_capsule_popcount_bound(a: Seq<u64>, n: int)
    requires
        0 <= n <= a.len(),
    ensures
        sum_popcount(a, n) <= 64 * n,
    decreases n,
{
    if n > 0 {
        lemma_capsule_popcount_bound(a, n - 1);
        lemma_popcount_le_64(a[n - 1]);
    }
}

/// Number of the first `n` grams of `bytes` that land on capsule bit `q`.
pub open spec fn address_hits(bytes: Seq<u8>, n: int, q: int) -> nat
    decreases n,
{
    if n <= 0 {
        0
    } else {
        address_hits(bytes, n - 1, q) + (if gram_address(n - 1, gram_at(bytes, n - 1)) == q {
            1nat
        } else {
            0nat
        })
    }
}

/// Capsule bit `q` is set exactly when an odd number of grams land on it.
pub proof fn lemma_capsule_bit_parity(bytes: Seq<u8>, n: int, q: int)
    requires
        0 <= n,
        0 <= q < 1024,
    ensures
        capsule_prefix(bytes, n).len() == 16,
        ((capsule_prefix(bytes, n)[q / 64] >> ((q % 64) as u64)) & 1u64 == 1u64) == (address_hits(
            bytes,
            n,
            q,
        ) % 2 == 1),
    decreases n,
{
    if n == 0 {
        let z = 0u64;
        let s = (q % 64) as u64;
        assert((z >> s) & 1u64 == 0u64) by (bit_vector)
            requires
                z == 0,
        ;
    } else {
        lemma_capsule_bit_parity(bytes, n - 1, q);
        let prev = capsule_prefix(bytes, n - 1);
        let a = gram_address(n - 1, gram_at(bytes, n - 1));
        let s = (q % 64) as u64;
        let t = (a % 64) as u64;
        let w = prev[a / 64];
        assert(0 <= a < 1024);
        if a / 64 == q / 64 {
            assert(((w ^ (1u64 << t)) >> s) & 1u64 == 1u64 <==> (((w >> s) & 1u64 == 1u64) != (s
                == t))) by (bit_vector)
                requires
                    s < 64,
                    t < 64,
            ;
            assert(a == q <==> s == t) by {
                assert(a == 64 * (a / 64) + a % 64);
                assert(q == 64 * (q / 64) + q % 64);
            }
        }
    }
}

/// 2 to the `b`, for `b` up to 4.
spec fn pow2_small(b: nat) -> nat {
    if b == 0 {
        1
    } else if b == 1 {
        2
    } else if b == 2 {
        4
    } else if b == 3 {
        8
    } else {
        16
    }
}

} // verus!

verus! {

// ── the gram stream is cyclic ───────────────────────────────────────────────

/// A window read at bit `j` is the window read at `j` reduced modulo the stream length.
proof fn lemma_window_mod(b: Seq<u8>, j: int, k: nat)
    requires
        b.len() > 0,
        j >= 0,
    ensures
        window_prefix(b, j, k) == window_prefix(b, j % (8 * b.len() as int), k),
    decreases k,
{
    if k > 0 {
        let nb = 8 * b.len() as int;
        lemma_window_mod(b, j, (k - 1) as nat);
        vstd::arithmetic::div_mod::lemma_add_mod_noop(j, k - 1, nb);
        vstd::arithmetic::div_mod::lemma_add_mod_noop(j % nb, k - 1, nb);
        vstd::arithmetic::div_mod::lemma_mod_twice(j, nb);
    }
}

/// Where every bit `p` of the stream of `c` is bit `(p + s) mod 8|b|` of the stream
/// of `b`, and `c` is `t` times as long as `b`, every window of `c` at `i` is the
/// window of `b` at `i + s`.
proof fn lemma_window_transfer(c: Seq<u8>, b: Seq<u8>, s: int, t: int, i: int, k: nat)
    requires
        b.len() > 0,
        t >= 1,
        c.len() == t * b.len(),
        s >= 0,
        i >= 0,
        forall|p: int|
            0 <= p < 8 * c.len() ==> #[trigger] stream_bit(c, p) == stream_bit(
                b,
                (p + s) % (8 * b.len() as int),
            ),
    ensures
        window_prefix(c, i, k) == window_prefix(b, i + s, k),
    decreases k,
{
    if k > 0 {
        lemma_window_transfer(c, b, s, t, i, (k - 1) as nat);
        let nb = 8 * b.len() as int;
        let mc = 8 * c.len() as int;
        let x = i + k - 1;
        assert(mc == nb * t) by (nonlinear_arith)
            requires
                c.len() == t * b.len(),
                mc == 8 * c.len(),
                nb == 8 * b.len(),
        ;
        vstd::arithmetic::div_mod::lemma_mod_mod(x, nb, t);
        vstd::arithmetic::div_mod::lemma_add_mod_noop(x % mc, s, nb);
        vstd::arithmetic::div_mod::lemma_add_mod_noop(x, s, nb);
        assert(0 <= x % mc < mc);
        assert(stream_bit(c, x % mc) == stream_bit(b, (x % mc + s) % nb));
    }
}

/// Law: the gram stream wraps around. The grams of a byte string written twice
/// are the grams of the string, read cyclically: gram `i` of `bytes + bytes` is
/// gram `i mod 8|bytes|` of `bytes`.
pub proof fn lemma_grams_of_repeat(bytes: Seq<u8>)
    requires
        bytes.len() > 0,
    ensures
        forall|i: int|
            0 <= i < 16 * bytes.len() ==> #[trigger] gram_at(bytes + bytes, i) == gram_at(
                bytes,
                i % (8 * bytes.len() as int),
            ),
{
    let c = bytes + bytes;
    let n = bytes.len() as int;
    let nb = 8 * n;
    assert forall|p: int| 0 <= p < 8 * c.len() implies #[trigger] stream_bit(c, p) == stream_bit(
        bytes,
        (p + 0) % nb,
    ) by {
        if p < nb {
            vstd::arithmetic::div_mod::lemma_small_mod(p as nat, nb as nat);
        } else {
            vstd::arithmetic::div_mod::lemma_fundamental_div_mod_converse(p, nb, 1, p - nb);
            assert((p - nb) / 8 == p / 8 - n);
            assert((p - nb) % 8 == p % 8);
        }
    }
    assert forall|i: int| 0 <= i < 16 * bytes.len() implies #[trigger] gram_at(bytes + bytes, i)
        == gram_at(bytes, i % nb) by {
        lemma_window_transfer(c, bytes, 0, 2, i, 4);
        lemma_window_mod(bytes, i, 4);
    }
}

/// The bits of a byte, most significant first, make up its two nibbles.
proof fn lemma_byte_bits(x: u8)
    by (bit_vector)
    ensures
        8 * ((x >> 7u8) & 1u8) + 4 * ((x >> 6u8) & 1u8) + 2 * ((x >> 5u8) & 1u8) + ((x >> 4u8) & 1u8)
            == x / 16,
        8 * ((x >> 3u8) & 1u8) + 4 * ((x >> 2u8) & 1u8) + 2 * ((x >> 1u8) & 1u8) + ((x >> 0u8) & 1u8)
            == x % 16,
{
}

/// Law: the stream reads each byte most significant bit first. The gram at the
/// first bit of byte `j` is its high nibble, and the gram at its fifth bit its low
/// nibble.
pub proof fn lemma_grams_at_byte_starts(bytes: Seq<u8>, j: int)
    requires
        0 <= j < bytes.len(),
    ensures
        gram_at(bytes, 8 * j) == bytes[j] / 16,
        gram_at(bytes, 8 * j + 4) == bytes[j] % 16,
{
    let nb = 8 * bytes.len() as int;
    let x = bytes[j];
    lemma_byte_bits(x);
    assert forall|b: int| 0 <= b < 8 implies (#[trigger] stream_bit(bytes, (8 * j + b) % nb)) == (x
        >> ((7 - b) as u8)) & 1u8 by {
        vstd::arithmetic::div_mod::lemma_small_mod((8 * j + b) as nat, nb as nat);
        assert((8 * j + b) / 8 == j && (8 * j + b) % 8 == b);
    }
    reveal_with_fuel(window_prefix, 5);
    assert(stream_bit(bytes, (8 * j + 0) % nb) == (x >> 7u8) & 1u8);
    assert(stream_bit(bytes, (8 * j + 1) % nb) == (x >> 6u8) & 1u8);
    assert(stream_bit(bytes, (8 * j + 2) % nb) == (x >> 5u8) & 1u8);
    assert(stream_bit(bytes, (8 * j + 3) % nb) == (x >> 4u8) & 1u8);
    assert(stream_bit(bytes, (8 * j + 4) % nb) == (x >> 3u8) & 1u8);
    assert(stream_bit(bytes, (8 * j + 5) % nb) == (x >> 2u8) & 1u8);
    assert(stream_bit(bytes, (8 * j + 6) % nb) == (x >> 1u8) & 1u8);
    assert(stream_bit(bytes, (8 * j + 7) % nb) == (x >> 0u8) & 1u8);
}

/// Law: rotating the bytes by one byte rotates the grams by eight: gram `i` of
/// `bytes[1..] + [bytes[0]]` is gram `(i + 8) mod 8|bytes|` of `bytes`.
pub proof fn lemma_grams_rotate_byte(bytes: Seq<u8>)
    requires
        bytes.len() > 0,
    ensures
        forall|i: int|
            0 <= i < 8 * bytes.len() ==> #[trigger] gram_at(
                bytes.subrange(1, bytes.len() as int).push(bytes[0]),
                i,
            ) == gram_at(bytes, (i + 8) % (8 * bytes.len() as int)),
{
    let c = bytes.subrange(1, bytes.len() as int).push(bytes[0]);
    let n = bytes.len() as int;
    let nb = 8 * n;
    assert forall|p: int| 0 <= p < 8 * c.len() implies #[trigger] stream_bit(c, p) == stream_bit(
        bytes,
        (p + 8) % nb,
    ) by {
        if p + 8 < nb {
            vstd::arithmetic::div_mod::lemma_small_mod((p + 8) as nat, nb as nat);
            assert((p + 8) / 8 == p / 8 + 1);
            assert((p + 8) % 8 == p % 8);
        } else {
            vstd::arithmetic::div_mod::lemma_fundamental_div_mod_converse(p + 8, nb, 1, p + 8 - nb);
            assert(p / 8 == n - 1);
            assert((p + 8 - nb) / 8 == 0);
            assert((p + 8 - nb) % 8 == p % 8);
        }
    }
    assert forall|i: int| 0 <= i < 8 * bytes.len() implies #[trigger] gram_at(c, i) == gram_at(
        bytes,
        (i + 8) % nb,
    ) by {
        lemma_window_transfer(c, bytes, 8, 1, i, 4);
        lemma_window_mod(bytes, i + 8, 4);
    }
}

} // verus!

verus! {

// ── the argument count of a stub ────────────────────────────────────────────

/// Law: a stub has `min(word 2 & 7, 4)` arguments or fields, never more than four.
pub proof fn lemma_stub_arity_capped(c: Seq<u64>)
    ensures
        stub_arity(c) == (if (c[2] & 7u64) < 4 {
            (c[2] & 7u64) as int
        } else {
            4
        }),
        0 <= stub_arity(c) <= 4,
{
}

/// The parameter list of a stub reads only the type words of its `n` parameters.
proof fn lemma_stub_params_same(c: Seq<u64>, d: Seq<u64>, n: int)
    requires
        forall|i: int| 0 <= i < n ==> #[trigger] c[3 + i] == d[3 + i],
    ensures
        stub_params(c, n) == stub_params(d, n),
        stub_fields(c, n) == stub_fields(d, n),
    decreases n,
{
    if n > 0 {
        lemma_stub_params_same(c, d, n - 1);
        assert(c[3 + (n - 1)] == d[3 + (n - 1)]);
    }
}

/// Law: the argument codes 4 to 7 all give four arguments. Two capsules that differ
/// only in word 2, both with a code of 4 or more in its low three bits, decode to the
/// same stub.
pub proof fn lemma_stub_codes_above_four_agree(c: Seq<u64>, d: Seq<u64>)
    requires
        c.len() == 16,
        d.len() == 16,
        forall|w: int| 0 <= w < 16 && w != 2 ==> #[trigger] c[w] == d[w],
        (c[2] & 7u64) >= 4,
        (d[2] & 7u64) >= 4,
    ensures
        stub_text(c) == stub_text(d),
{
    assert(c[0] == d[0] && c[1] == d[1] && c[8] == d[8] && c[15] == d[15]);
    assert forall|i: int| 0 <= i < 4 implies #[trigger] c[3 + i] == d[3 + i] by {
        assert(c[3 + i] == d[3 + i]);
    }
    lemma_stub_params_same(c, d, 4);
}

/// Number of colons in a text.
pub open spec fn colon_count(s: Seq<char>) -> nat
    decreases s.len(),
{
    if s.len() == 0 {
        0
    } else {
        colon_count(s.drop_last()) + (if s.last() == ':' {
            1nat
        } else {
            0nat
        })
    }
}

/// Colons of a concatenation add up.
proof fn lemma_colon_add(a: Seq<char>, b: Seq<char>)
    ensures
        colon_count(a + b) == colon_count(a) + colon_count(b),
    decreases b.len(),
{
    if b.len() > 0 {
        lemma_colon_add(a, b.drop_last());
        assert((a + b).drop_last() =~= a + b.drop_last());
    } else {
        assert(a + b =~= a);
    }
}

/// A text without a colon character has no colon.
proof fn lemma_colon_free(s: Seq<char>)
    requires
        forall|i: int| 0 <= i < s.len() ==> s[i] != ':',
    ensures
        colon_count(s) == 0,
    decreases s.len(),
{
    if s.len() > 0 {
        lemma_colon_free(s.drop_last());
    }
}

/// Appending a character adds one colon when it is a colon.
proof fn lemma_colon_push(a: Seq<char>, x: char)
    ensures
        colon_count(a.push(x)) == colon_count(a) + (if x == ':' {
            1nat
        } else {
            0nat
        }),
{
    assert(a.push(x).drop_last() =~= a);
}

/// A decimal numeral has no colon.
proof fn lemma_decimal_colon_free(n: nat)
    ensures
        colon_count(decimal(n)) == 0,
    decreases n,
{
    if n < 10 {
        lemma_colon_push(seq![], crate::text::digit_char(n));
        assert(seq![crate::text::digit_char(n)] =~= Seq::<char>::empty().push(crate::text::digit_char(n)));
    } else {
        lemma_decimal_colon_free(n / 10);
        lemma_colon_push(decimal(n / 10), crate::text::digit_char(n % 10));
    }
}

/// The fixed pieces of a stub's text have no colon, and ": " has one.
proof fn lemma_stub_pieces_colon_free()
    ensures
        colon_count("#[derive(Debug, Clone)]\npub struct "@) == 0,
        colon_count(" {\n"@) == 0,
        colon_count("}\n"@) == 0,
        colon_count("pub fn "@) == 0,
        colon_count("("@) == 0,
        colon_count(") -> "@) == 0,
        colon_count(" { "@) == 0,
        colon_count(" }\n"@) == 0,
        colon_count("    pub f"@) == 0,
        colon_count(",\n"@) == 0,
        colon_count(", "@) == 0,
        colon_count("a"@) == 0,
        colon_count("s_"@) == 0,
        colon_count(": "@) == 1,
{
    reveal_strlit("#[derive(Debug, Clone)]\npub struct ");
    reveal_strlit(" {\n");
    reveal_strlit("}\n");
    reveal_strlit("pub fn ");
    reveal_strlit("(");
    reveal_strlit(") -> ");
    reveal_strlit(" { ");
    reveal_strlit(" }\n");
    reveal_strlit("    pub f");
    reveal_strlit(",\n");
    reveal_strlit(", ");
    reveal_strlit("a");
    reveal_strlit("s_");
    reveal_strlit(": ");
    lemma_colon_free("#[derive(Debug, Clone)]\npub struct "@);
    lemma_colon_free(" {\n"@);
    lemma_colon_free("}\n"@);
    lemma_colon_free("pub fn "@);
    lemma_colon_free("("@);
    lemma_colon_free(") -> "@);
    lemma_colon_free(" { "@);
    lemma_colon_free(" }\n"@);
    lemma_colon_free("    pub f"@);
    lemma_colon_free(",\n"@);
    lemma_colon_free(", "@);
    lemma_colon_free("a"@);
    lemma_colon_free("s_"@);
    lemma_colon_push(seq![':'], ' ');
    lemma_colon_push(seq![], ':');
    assert(seq![':'] =~= Seq::<char>::empty().push(':'));
    assert(": "@ =~= seq![':'].push(' '));
}

/// Type names and default values have no colon.
proof fn lemma_type_colon_free(n: u8)
    ensures
        colon_count(type_label(n)) == 0,
        colon_count(default_of(type_label(n))) == 0,
{
    reveal_strlit("u8");
    reveal_strlit("u16");
    reveal_strlit("u32");
    reveal_strlit("u64");
    reveal_strlit("usize");
    reveal_strlit("i8");
    reveal_strlit("i16");
    reveal_strlit("i32");
    reveal_strlit("i64");
    reveal_strlit("isize");
    reveal_strlit("bool");
    reveal_strlit("f32");
    reveal_strlit("f64");
    reveal_strlit("&[u8]");
    reveal_strlit("&str");
    reveal_strlit("()");
    reveal_strlit("0");
    reveal_strlit("false");
    reveal_strlit("0.0");
    reveal_strlit("&[]");
    reveal_strlit("\"\"");
    lemma_colon_free("u8"@);
    lemma_colon_free("u16"@);
    lemma_colon_free("u32"@);
    lemma_colon_free("u64"@);
    lemma_colon_free("usize"@);
    lemma_colon_free("i8"@);
    lemma_colon_free("i16"@);
    lemma_colon_free("i32"@);
    lemma_colon_free("i64"@);
    lemma_colon_free("isize"@);
    lemma_colon_free("bool"@);
    lemma_colon_free("f32"@);
    lemma_colon_free("f64"@);
    lemma_colon_free("&[u8]"@);
    lemma_colon_free("&str"@);
    lemma_colon_free("()"@);
    lemma_colon_free("0"@);
    lemma_colon_free("false"@);
    lemma_colon_free("0.0"@);
    lemma_colon_free("&[]"@);
    lemma_colon_free("\"\""@);
    reveal_strlit("");
    lemma_colon_free(""@);
}

/// A syllable has no colon.
proof fn lemma_syllable_colon_free(i: u64)
    requires
        i < 64,
    ensures
        colon_count(syllable(i)) == 0,
{
    let cs = seq!['b', 'c', 'd', 'f', 'g', 'h', 'j', 'k', 'l', 'm', 'n', 'p', 'r'];
    let vs = seq!['a', 'e', 'i', 'o', 'u'];
    assert(forall|k: int| 0 <= k < 13 ==> cs[k] != ':');
    assert(forall|k: int| 0 <= k < 5 ==> vs[k] != ':');
    lemma_colon_free(syllable(i));
}

/// The low six bits of a word are below 64.
proof fn lemma_low_six(x: u64)
    ensures
        x & 0x3Fu64 < 64,
{
    vstd::bits::lemma_u64_low_bits_mask_is_mod(x, 6);
    vstd::bits::lemma_low_bits_mask_values();
    vstd::arithmetic::power2::lemma2_to64();
}

/// A stub name has no colon.
proof fn lemma_name_colon_free(h: u64)
    ensures
        colon_count(stub_name(h)) == 0,
{
    lemma_stub_pieces_colon_free();
    let a = (h >> 48u64) & 0x3F;
    let b = (h >> 32u64) & 0x3F;
    let c = (h >> 16u64) & 0x3F;
    let d = h & 0x3F;
    lemma_low_six(h >> 48u64);
    lemma_low_six(h >> 32u64);
    lemma_low_six(h >> 16u64);
    lemma_low_six(h);
    lemma_syllable_colon_free(a);
    lemma_syllable_colon_free(b);
    lemma_syllable_colon_free(c);
    lemma_syllable_colon_free(d);
    lemma_colon_add("s_"@, syllable(a));
    lemma_colon_add("s_"@ + syllable(a), syllable(b));
    lemma_colon_add("s_"@ + syllable(a) + syllable(b), syllable(c));
    lemma_colon_add("s_"@ + syllable(a) + syllable(b) + syllable(c), syllable(d));
}

/// Each of the first `n` parameters or fields brings exactly one colon.
proof fn lemma_params_colons(c: Seq<u64>, n: int)
    requires
        n >= 0,
    ensures
        colon_count(stub_params(c, n)) == n,
        colon_count(stub_fields(c, n)) == n,
    decreases n,
{
    lemma_stub_pieces_colon_free();
    if n > 0 {
        lemma_params_colons(c, n - 1);
        let t = stub_arg_type(c, n - 1);
        let d = decimal((n - 1) as nat);
        lemma_decimal_colon_free((n - 1) as nat);
        lemma_type_colon_free((c[3 + (n - 1)] & 0xFu64) as u8);
        let pre = if n == 1 {
            seq![]
        } else {
            stub_params(c, n - 1) + ", "@
        };
        if n == 1 {
            assert(colon_count(pre) == 0);
        } else {
            lemma_colon_add(stub_params(c, n - 1), ", "@);
        }
        lemma_colon_add(pre, "a"@);
        lemma_colon_add(pre + "a"@, d);
        lemma_colon_add(pre + "a"@ + d, ": "@);
        lemma_colon_add(pre + "a"@ + d + ": "@, t);
        let f = stub_fields(c, n - 1);
        lemma_colon_add(f, "    pub f"@);
        lemma_colon_add(f + "    pub f"@, d);
        lemma_colon_add(f + "    pub f"@ + d, ": "@);
        lemma_colon_add(f + "    pub f"@ + d + ": "@, t);
        lemma_colon_add(f + "    pub f"@ + d + ": "@ + t, ",\n"@);
    }
}

/// Law: the stub text holds one colon per parameter or field and no other, and
/// there are `min(word 2 & 7, 4)` of them: a stub never has more than four
/// parameters or fields.
pub proof fn lemma_stub_colons(c: Seq<u64>)
    ensures
        colon_count(stub_text(c)) == (if (c[2] & 7u64) < 4 {
            (c[2] & 7u64) as int
        } else {
            4
        }),
        colon_count(stub_text(c)) <= 4,
{
    lemma_stub_pieces_colon_free();
    let k = stub_arity(c);
    lemma_params_colons(c, k);
    let name = stub_name(c[0] ^ c[1]);
    lemma_name_colon_free(c[0] ^ c[1]);
    if stub_is_struct(c) {
        let h = "#[derive(Debug, Clone)]\npub struct "@;
        lemma_colon_add(h, name);
        lemma_colon_add(h + name, " {\n"@);
        lemma_colon_add(h + name + " {\n"@, stub_fields(c, k));
        lemma_colon_add(h + name + " {\n"@ + stub_fields(c, k), "}\n"@);
    } else {
        let r = stub_ret_type(c);
        lemma_type_colon_free((c[8] & 0xFu64) as u8);
        let h = "pub fn "@;
        lemma_colon_add(h, name);
        lemma_colon_add(h + name, "("@);
        lemma_colon_add(h + name + "("@, stub_params(c, k));
        lemma_colon_add(h + name + "("@ + stub_params(c, k), ") -> "@);
        lemma_colon_add(h + name + "("@ + stub_params(c, k) + ") -> "@, r);
        lemma_colon_add(h + name + "("@ + stub_params(c, k) + ") -> "@ + r, " { "@);
        lemma_colon_add(h + name + "("@ + stub_params(c, k) + ") -> "@ + r + " { "@, default_of(r));
        lemma_colon_add(
            h + name + "("@ + stub_params(c, k) + ") -> "@ + r + " { "@ + default_of(r),
            " }\n"@,
        );
    }
}

} // verus!
