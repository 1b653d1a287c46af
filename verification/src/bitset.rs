//! Fixed-width bitsets indexed by gram number, with the bitwise algebra,
//! whole-set shifts and the shift cross-correlation.
use vstd::prelude::*;
use crate::popcount::{popcount, popcount64, lemma_popcount_le_64, popcount_prefix, popcount_sum, lemma_popcount_prefix_bound, lemma_popcount_split};

verus! {

/// Bit `b` (0 = least significant) of a word.
pub open spec fn word_bit(w: u64, b: int) -> bool {
    (w >> (b as u64)) & 1u64 == 1u64
}

/// Bit `j` of a word sequence: bit `j % 64` of word `j / 64`; false past the end.
pub open spec fn bit_of(words: Seq<u64>, j: int) -> bool {
    0 <= j < 64 * words.len() && word_bit(words[j / 64], j % 64)
}

/// Word `j` of a sequence, or 0 past either end.
pub open spec fn word_or_zero(words: Seq<u64>, j: int) -> u64 {
    if 0 <= j < words.len() {
        words[j]
    } else {
        0
    }
}

/// Word `i` of the bitset shifted right by `k` bits (towards lower indices).
pub open spec fn shifted_right_word(words: Seq<u64>, k: int, i: int) -> u64 {
    let kw = k / 64;
    let kb = k % 64;
    if kb == 0 {
        word_or_zero(words, i + kw)
    } else {
        (word_or_zero(words, i + kw) >> (kb as u64)) | (word_or_zero(words, i + kw + 1) << ((64
            - kb) as u64))
    }
}

/// Word `i` of the bitset shifted left by `k` bits (towards higher indices).
pub open spec fn shifted_left_word(words: Seq<u64>, k: int, i: int) -> u64 {
    let kw = k / 64;
    let kb = k % 64;
    if i < kw {
        0
    } else if kb == 0 {
        words[i - kw]
    } else {
        (words[i - kw] << (kb as u64)) | (word_or_zero(words, i - kw - 1) >> ((64 - kb) as u64))
    }
}

/// The `nw` words of a bitset shifted right by `k` bits.
pub open spec fn spec_shift_right(words: Seq<u64>, nw: nat, k: int) -> Seq<u64> {
    Seq::new(nw, |i: int| shifted_right_word(words, k, i))
}

/// The `nw` words of a bitset shifted left by `k` bits.
pub open spec fn spec_shift_left(words: Seq<u64>, nw: nat, k: int) -> Seq<u64> {
    Seq::new(nw, |i: int| shifted_left_word(words, k, i))
}

/// Number of common set bits of the first `n` word pairs of `a` and `b`.
pub open spec fn and_count_prefix(a: Seq<u64>, b: Seq<u64>, n: int) -> nat
    decreases n,
{
    if n <= 0 {
        0
    } else {
        and_count_prefix(a, b, n - 1) + popcount(a[n - 1] & b[n - 1])
    }
}

/// Number of common set bits of `a` and `b` over their common length.
pub open spec fn and_count(a: Seq<u64>, b: Seq<u64>) -> nat {
    and_count_prefix(a, b, if a.len() <= b.len() {
        a.len() as int
    } else {
        b.len() as int
    })
}

/// Number of set bits of the union of the first `n` word pairs of `a` and `b`.
pub open spec fn or_count_prefix(a: Seq<u64>, b: Seq<u64>, n: int) -> nat
    decreases n,
{
    if n <= 0 {
        0
    } else {
        or_count_prefix(a, b, n - 1) + popcount(a[n - 1] | b[n - 1])
    }
}

/// Number of set bits of the union of `a` and `b` over their common length.
pub open spec fn or_count(a: Seq<u64>, b: Seq<u64>) -> nat {
    or_count_prefix(a, b, if a.len() <= b.len() {
        a.len() as int
    } else {
        b.len() as int
    })
}

/// The smaller of two lengths.
pub open spec fn min_len(a: nat, b: nat) -> nat {
    if a <= b {
        a
    } else {
        b
    }
}

/// The shifted copy of `words` that the cross-correlation pairs with shift `k`:
/// left by `k` for `k >= 0`, right by `-k` otherwise.
pub open spec fn xcorr_shifted(words: Seq<u64>, nw: nat, k: int) -> Seq<u64> {
    if k >= 0 {
        spec_shift_left(words, nw, k)
    } else {
        spec_shift_right(words, nw, -k)
    }
}

/// The positions of the set bits of `words`.
pub open spec fn set_bit_positions(words: Seq<u64>) -> Set<int> {
    Set::new(|p: int| bit_of(words, p))
}

/// AND of words commutes.
proof fn lemma_and_commutes(x: u64, y: u64)
    by (bit_vector)
    ensures
        x & y == y & x,
{
}

/// The inner product over the first `n` word pairs is symmetric and bounded by
/// the set bits of either side.
proof fn lemma_and_count_prefix_inner(a: Seq<u64>, b: Seq<u64>, n: int)
    requires
        0 <= n <= a.len(),
        n <= b.len(),
    ensures
        and_count_prefix(a, b, n) == and_count_prefix(b, a, n),
        and_count_prefix(a, b, n) <= popcount_prefix(a, n),
        and_count_prefix(a, b, n) <= popcount_prefix(b, n),
    decreases n,
{
    if n > 0 {
        lemma_and_count_prefix_inner(a, b, n - 1);
        let x = a[n - 1];
        let y = b[n - 1];
        lemma_and_commutes(x, y);
        lemma_popcount_split(x, y);
        lemma_popcount_split(y, x);
    }
}

/// Law: the AND-popcount inner product of two sets of the same width is
/// symmetric and at most the size of either set.
pub proof fn lemma_and_count_inner_product(a: Seq<u64>, b: Seq<u64>)
    requires
        a.len() == b.len(),
    ensures
        and_count(a, b) == and_count(b, a),
        and_count(a, b) <= popcount_sum(a),
        and_count(a, b) <= popcount_sum(b),
{
    lemma_and_count_prefix_inner(a, b, a.len() as int);
}

/// `sum_{k < n} 2^k * and_count(s, planes[k])`: the bit-plane weighted count of
/// the grams of `s`.
pub open spec fn plane_total(s: Seq<u64>, planes: Seq<Vec<u64>>, n: int) -> nat
    decreases n,
{
    if n <= 0 {
        0
    } else {
        plane_total(s, planes, n - 1) + and_count(s, planes[n - 1]@) * vstd::arithmetic::power2::pow2(
            (n - 1) as nat,
        )
    }
}

/// The weighted count only grows with more planes.
proof fn lemma_plane_total_grows(s: Seq<u64>, planes: Seq<Vec<u64>>, k: int, n: int)
    requires
        0 <= k <= n,
    ensures
        plane_total(s, planes, k) <= plane_total(s, planes, n),
    decreases n - k,
{
    if k < n {
        lemma_plane_total_grows(s, planes, k, n - 1);
        assert(and_count(s, planes[n - 1]@) * vstd::arithmetic::power2::pow2((n - 1) as nat) >= 0)
            by (nonlinear_arith);
    }
}

/// The bit-plane weighted count of `s_words` over the first `b_bits` planes
/// (see [`plane_total`]), or `None` when it does not fit in 32 bits.
pub fn plane_weighted_count(s_words: &[u64], planes: &[Vec<u64>], b_bits: usize) -> (r: Option<u32>)
    requires
        b_bits <= planes@.len(),
        b_bits <= 32,
        64 * s_words@.len() <= u32::MAX,
    ensures
        r == (if plane_total(s_words@, planes@, b_bits as int) <= u32::MAX {
            Some(plane_total(s_words@, planes@, b_bits as int) as u32)
        } else {
            None
        }),
{
    let mut total: u64 = 0;
    for k in 0..b_bits
        invariant
            b_bits <= planes@.len(),
            b_bits <= 32,
            64 * s_words@.len() <= u32::MAX,
            total == plane_total(s_words@, planes@, k as int),
            total <= u32::MAX,
    {
        let cnt = and_popcount(s_words, planes[k].as_slice());
        proof {
            vstd::arithmetic::power2::lemma2_to64();
            vstd::bits::lemma_u64_pow2_no_overflow(k as nat);
            if k < 32 {
                vstd::arithmetic::power2::lemma_pow2_strictly_increases(k as nat, 32);
            }
            vstd::arithmetic::power2::lemma_pow2_pos(k as nat);
            vstd::bits::lemma_u64_shl_is_mul(1u64, k as u64);
            let p = vstd::arithmetic::power2::pow2(k as nat);
            assert(cnt * p <= 0xFFFF_FFFFu64 * 0x1_0000_0000u64) by (nonlinear_arith)
                requires
                    cnt <= 0xFFFF_FFFFu64,
                    p <= 0x1_0000_0000u64,
            ;
        }
        let w = 1u64 << (k as u64);
        let term = (cnt as u64) * w;
        let next = total + term;
        assert(next == plane_total(s_words@, planes@, k + 1));
        if next > 0xFFFF_FFFF {
            proof {
                lemma_plane_total_grows(s_words@, planes@, k + 1, b_bits as int);
            }
            return None;
        }
        total = next;
    }
    Some(total as u32)
}

/// Law: the cross-correlation at shift 0 is the plain intersection count.
pub proof fn lemma_xcorr_at_zero(a: Seq<u64>, b: Seq<u64>)
    ensures
        and_count(a, xcorr_shifted(b, b.len(), 0)) == and_count(a, b),
{
    assert(xcorr_shifted(b, b.len(), 0) =~= b);
}

/// A bitset over gram indices: bit `i` of the set is bit `i % 64` of word `i / 64`.
pub struct DocBits {
    pub words: Vec<u64>,
    pub nw: usize,
}

/// Shifting two adjacent words right by `kb` bits takes bit `b` from bit `b + kb`.
proof fn lemma_shr_pair(lo: u64, hi: u64, kb: u64, b: u64)
    requires
        0 < kb < 64,
        b < 64,
    ensures
        (((lo >> kb) | (hi << (64 - kb) as u64)) >> b) & 1u64 == (if b + kb < 64 {
            (lo >> (b + kb) as u64) & 1u64
        } else {
            (hi >> (b + kb - 64) as u64) & 1u64
        }),
{
    assert((((lo >> kb) | (hi << (64 - kb) as u64)) >> b) & 1u64 == (if b + kb < 64 {
        (lo >> (b + kb) as u64) & 1u64
    } else {
        (hi >> (b + kb - 64) as u64) & 1u64
    })) by (bit_vector)
        requires
            0 < kb < 64,
            b < 64,
    ;
}

/// Shifting two adjacent words left by `kb` bits takes bit `b` from bit `b - kb`.
proof fn lemma_shl_pair(lo: u64, hi: u64, kb: u64, b: u64)
    requires
        0 < kb < 64,
        b < 64,
    ensures
        (((lo << kb) | (hi >> (64 - kb) as u64)) >> b) & 1u64 == (if b >= kb {
            (lo >> (b - kb) as u64) & 1u64
        } else {
            (hi >> (b + 64 - kb) as u64) & 1u64
        }),
{
    assert((((lo << kb) | (hi >> (64 - kb) as u64)) >> b) & 1u64 == (if b >= kb {
        (lo >> (b - kb) as u64) & 1u64
    } else {
        (hi >> (b + 64 - kb) as u64) & 1u64
    })) by (bit_vector)
        requires
            0 < kb < 64,
            b < 64,
    ;
}

/// The zero word has no set bit.
pub(crate) proof fn lemma_zero_word_bits()
    ensures
        forall|b: int| 0 <= b < 64 ==> !#[trigger] word_bit(0u64, b),
{
    assert forall|b: int| 0 <= b < 64 implies !#[trigger] word_bit(0u64, b) by {
        let z = 0u64;
        let bb = b as u64;
        assert((z >> bb) & 1u64 == 0u64) by (bit_vector)
            requires
                z == 0,
        ;
    }
}

/// Bit `b` of a word read through [`word_or_zero`] is the bit of the sequence.
proof fn lemma_word_or_zero_bit(words: Seq<u64>, w: int, b: int)
    requires
        0 <= b < 64,
        w >= 0,
    ensures
        word_bit(word_or_zero(words, w), b) == bit_of(words, 64 * w + b),
{
    lemma_zero_word_bits();
    assert((64 * w + b) / 64 == w && (64 * w + b) % 64 == b);
}

/// Bit `j` of the right-shifted bitset is bit `j + k` of the unshifted one.
proof fn lemma_shift_right_bits(words: Seq<u64>, nw: nat, k: int)
    requires
        k >= 0,
    ensures
        forall|j: int|
            0 <= j < 64 * nw ==> #[trigger] bit_of(spec_shift_right(words, nw, k), j) == bit_of(
                words,
                j + k,
            ),
{
    let out = spec_shift_right(words, nw, k);
    assert forall|j: int| 0 <= j < 64 * nw implies #[trigger] bit_of(out, j) == bit_of(
        words,
        j + k,
    ) by {
        let i = j / 64;
        let b = j % 64;
        let kw = k / 64;
        let kb = k % 64;
        assert(j == 64 * i + b);
        assert(k == 64 * kw + kb);
        if kb == 0 {
            lemma_word_or_zero_bit(words, i + kw, b);
        } else {
            let lo = word_or_zero(words, i + kw);
            let hi = word_or_zero(words, i + kw + 1);
            lemma_shr_pair(lo, hi, kb as u64, b as u64);
            if b + kb < 64 {
                lemma_word_or_zero_bit(words, i + kw, b + kb);
            } else {
                lemma_word_or_zero_bit(words, i + kw + 1, b + kb - 64);
            }
        }
    }
}

/// Bit `j` of the left-shifted bitset is bit `j - k` of the unshifted one (clear below `k`).
proof fn lemma_shift_left_bits(words: Seq<u64>, nw: nat, k: int)
    requires
        k >= 0,
        nw <= words.len() + k / 64,
    ensures
        forall|j: int|
            0 <= j < 64 * nw ==> #[trigger] bit_of(spec_shift_left(words, nw, k), j) == (j >= k
                && bit_of(words, j - k)),
{
    let out = spec_shift_left(words, nw, k);
    lemma_zero_word_bits();
    assert forall|j: int| 0 <= j < 64 * nw implies #[trigger] bit_of(out, j) == (j >= k && bit_of(
        words,
        j - k,
    )) by {
        let i = j / 64;
        let b = j % 64;
        let kw = k / 64;
        let kb = k % 64;
        assert(j == 64 * i + b);
        assert(k == 64 * kw + kb);
        if i < kw {
            assert(!word_bit(0u64, b));
        } else if kb == 0 {
            lemma_word_or_zero_bit(words, i - kw, b);
        } else {
            let lo = words[i - kw];
            let hi = word_or_zero(words, i - kw - 1);
            lemma_shl_pair(lo, hi, kb as u64, b as u64);
            if b >= kb {
                lemma_word_or_zero_bit(words, i - kw, b - kb);
            } else if i - kw - 1 >= 0 {
                lemma_word_or_zero_bit(words, i - kw - 1, b + 64 - kb);
            } else {
                assert(!word_bit(0u64, b + 64 - kb));
            }
        }
    }
}

impl DocBits {
    /// The word count agrees with the words held.
    pub open spec fn wf(&self) -> bool {
        self.words@.len() == self.nw
    }

    /// Whether gram `j` is in the set.
    pub open spec fn contains(&self, j: int) -> bool {
        bit_of(self.words@, j)
    }

    /// The empty set over `nw` words.
    pub fn new(nw: usize) -> (r: Self)
        ensures
            r.wf(),
            r.nw == nw,
            r.words@ == Seq::new(nw as nat, |i: int| 0u64),
    {
        let words = vec![0u64; nw];
        assert(words@ =~= Seq::new(nw as nat, |i: int| 0u64));
        DocBits { words, nw }
    }

    /// Number of grams in the set (set bits over all words).
    pub fn count_ones(&self) -> (r: u32)
        requires
            64 * self.words@.len() <= u32::MAX,
        ensures
            r == popcount_sum(self.words@),
    {
        let mut total: u32 = 0;
        for i in 0..self.words.len()
            invariant
                64 * self.words@.len() <= u32::MAX,
                total == popcount_prefix(self.words@, i as int),
        {
            proof {
                lemma_popcount_prefix_bound(self.words@, i + 1);
            }
            total = total + popcount64(self.words[i]);
        }
        total
    }

    /// The sizes of the intersection and of the union with `other`, over the
    /// words both have.
    pub fn overlap_counts(&self, other: &Self) -> (r: (u32, u32))
        requires
            64 * self.words@.len() <= u32::MAX,
        ensures
            r.0 == and_count(self.words@, other.words@),
            r.1 == or_count(self.words@, other.words@),
    {
        let n = if self.words.len() <= other.words.len() {
            self.words.len()
        } else {
            other.words.len()
        };
        let mut inter: u32 = 0;
        let mut union: u32 = 0;
        for i in 0..n
            invariant
                n <= self.words@.len(),
                n <= other.words@.len(),
                n == (if self.words@.len() <= other.words@.len() {
                    self.words@.len()
                } else {
                    other.words@.len()
                }),
                64 * self.words@.len() <= u32::MAX,
                inter == and_count_prefix(self.words@, other.words@, i as int),
                union == or_count_prefix(self.words@, other.words@, i as int),
                inter <= 64 * i,
                union <= 64 * i,
        {
            proof {
                lemma_popcount_le_64(self.words@[i as int] & other.words@[i as int]);
                lemma_popcount_le_64(self.words@[i as int] | other.words@[i as int]);
            }
            inter = inter + popcount64(self.words[i] & other.words[i]);
            union = union + popcount64(self.words[i] | other.words[i]);
        }
        (inter, union)
    }

    /// Adds gram `i` to the set.
    pub fn set(&mut self, i: usize)
        requires
            i / 64 < old(self).words@.len(),
        ensures
            final(self).nw == old(self).nw,
            final(self).words@ == old(self).words@.update(
                i as int / 64,
                old(self).words@[i as int / 64] | (1u64 << (i % 64) as u64),
            ),
            forall|j: int| #[trigger] final(self).contains(j) == (j == i || old(self).contains(j)),
    {
        let w = i / 64;
        let b = (i % 64) as u64;
        let nv = self.words[w] | (1u64 << b);
        self.words.set(w, nv);
        proof {
            let ow = old(self).words@[w as int];
            assert forall|j: int| #[trigger] self.contains(j) == (j == i || old(self).contains(j)) by {
                if 0 <= j < 64 * self.words@.len() && j / 64 == w {
                    let c = (j % 64) as u64;
                    assert(((ow | (1u64 << b)) >> c) & 1u64 == 1u64 <==> (c == b || (ow >> c) & 1u64
                        == 1u64)) by (bit_vector)
                        requires
                            b < 64,
                            c < 64,
                    ;
                    assert(j == 64 * w + (j % 64));
                    assert(i == 64 * w + b);
                }
            }
        }
    }

    /// The `nw` words of the set shifted right by `k` bits: bit `j` of the
    /// result is bit `j + k` of the set, as in a wide right shift.
    pub fn shift_right(&self, k: usize) -> (out: Vec<u64>)
        ensures
            out@ == spec_shift_right(self.words@, self.nw as nat, k as int),
            forall|j: int|
                0 <= j < 64 * self.nw ==> #[trigger] bit_of(out@, j) == self.contains(j + k),
    {
        let kw = k / 64;
        let kb = k % 64;
        let len = self.words.len();
        let mut out = vec![0u64; self.nw];
        for i in 0..self.nw
            invariant
                kw == k / 64,
                kb == k % 64,
                len == self.words@.len(),
                out@.len() == self.nw,
                forall|ii: int| 0 <= ii < i ==> out@[ii] == shifted_right_word(
                    self.words@,
                    k as int,
                    ii,
                ),
        {
            let lo = if kw < len && i < len - kw {
                self.words[i + kw]
            } else {
                0
            };
            let v = if kb == 0 {
                lo
            } else {
                let hi = if kw + 1 < len && i < len - kw - 1 {
                    self.words[i + kw + 1]
                } else {
                    0
                };
                (lo >> kb as u64) | (hi << (64 - kb) as u64)
            };
            out.set(i, v);
        }
        assert(out@ =~= spec_shift_right(self.words@, self.nw as nat, k as int));
        proof {
            lemma_shift_right_bits(self.words@, self.nw as nat, k as int);
        }
        out
    }

    /// The `nw` words of the set shifted left by `k` bits: bit `j` of the
    /// result is bit `j - k` of the set, and bits below `k` are clear.
    pub fn shift_left(&self, k: usize) -> (out: Vec<u64>)
        requires
            self.nw <= self.words@.len() + k / 64,
        ensures
            out@ == spec_shift_left(self.words@, self.nw as nat, k as int),
            forall|j: int|
                0 <= j < 64 * self.nw ==> #[trigger] bit_of(out@, j) == (j >= k && self.contains(
                    j - k,
                )),
    {
        let kw = k / 64;
        let kb = k % 64;
        let mut out = vec![0u64; self.nw];
        let mut i = kw;
        assert forall|ii: int| 0 <= ii < self.nw && ii < kw implies out@[ii]
            == shifted_left_word(self.words@, k as int, ii) by {}
        while i < self.nw
            invariant
                kw == k / 64,
                kb == k % 64,
                self.nw <= self.words@.len() + kw,
                out@.len() == self.nw,
                kw <= i || self.nw <= i,
                forall|ii: int| 0 <= ii < self.nw && ii < i ==> out@[ii] == shifted_left_word(
                    self.words@,
                    k as int,
                    ii,
                ),
            decreases self.nw - i,
        {
            let lo = self.words[i - kw];
            let v = if kb == 0 {
                lo
            } else {
                let hi = if i > kw {
                    self.words[i - kw - 1]
                } else {
                    0
                };
                (lo << kb as u64) | (hi >> (64 - kb) as u64)
            };
            out.set(i, v);
            i = i + 1;
        }
        assert(out@ =~= spec_shift_left(self.words@, self.nw as nat, k as int));
        proof {
            lemma_shift_left_bits(self.words@, self.nw as nat, k as int);
        }
        out
    }
}

/// Bitwise facts of one bit position.
pub(crate) proof fn lemma_bitwise_bit(a: u64, b: u64, c: u64)
    by (bit_vector)
    requires
        c < 64,
    ensures
        ((a & b) >> c) & 1u64 == 1u64 <==> ((a >> c) & 1u64 == 1u64 && (b >> c) & 1u64 == 1u64),
        ((a | b) >> c) & 1u64 == 1u64 <==> ((a >> c) & 1u64 == 1u64 || (b >> c) & 1u64 == 1u64),
        ((a ^ b) >> c) & 1u64 == 1u64 <==> ((a >> c) & 1u64 == 1u64) != ((b >> c) & 1u64
            == 1u64),
        ((a & !b) >> c) & 1u64 == 1u64 <==> ((a >> c) & 1u64 == 1u64 && (b >> c) & 1u64 != 1u64),
{
}

/// Common set bits of the first `n` word pairs number at most `64 n`.
proof fn lemma_and_count_prefix_bound(a: Seq<u64>, b: Seq<u64>, n: int)
    requires
        0 <= n <= a.len(),
        n <= b.len(),
    ensures
        and_count_prefix(a, b, n) <= 64 * n,
    decreases n,
{
    if n > 0 {
        lemma_and_count_prefix_bound(a, b, n - 1);
        lemma_popcount_le_64(a[n - 1] & b[n - 1]);
    }
}

/// Number of common set bits of two word sequences over their common length.
pub(crate) fn and_popcount(a: &[u64], b: &[u64]) -> (r: u32)
    requires
        64 * a@.len() <= u32::MAX,
    ensures
        r == and_count(a@, b@),
{
    let n = if a.len() <= b.len() {
        a.len()
    } else {
        b.len()
    };
    let mut total: u32 = 0;
    for i in 0..n
        invariant
            n <= a@.len(),
            n <= b@.len(),
            n == min_len(a@.len(), b@.len()),
            64 * a@.len() <= u32::MAX,
            total == and_count_prefix(a@, b@, i as int),
    {
        proof {
            lemma_and_count_prefix_bound(a@, b@, i + 1);
        }
        total = total + popcount64(a[i] & b[i]);
    }
    total
}

impl DocBits {
    /// A AND B, word by word over the common length.
    pub fn and(&self, other: &Self) -> (r: DocBits)
        requires
            self.nw == other.nw,
        ensures
            r.nw == self.nw,
            r.words@.len() == min_len(self.words@.len(), other.words@.len()),
            forall|i: int| 0 <= i < r.words@.len() ==> #[trigger] r.words@[i] == self.words@[i] & other.words@[i],
            forall|j: int| 0 <= j < 64 * r.words@.len() ==> #[trigger] r.contains(j) == (self.contains(j) && other.contains(j)),
    {
        let n = if self.words.len() <= other.words.len() { self.words.len() } else { other.words.len() };
        let mut words: Vec<u64> = Vec::new();
        for i in 0..n
            invariant
                n == min_len(self.words@.len(), other.words@.len()),
                words@.len() == i,
                forall|ii: int| 0 <= ii < i ==> #[trigger] words@[ii] == self.words@[ii] & other.words@[ii],
        {
            words.push(self.words[i] & other.words[i]);
        }
        let r = DocBits { words, nw: self.nw };
        assert forall|j: int| 0 <= j < 64 * r.words@.len() implies #[trigger] r.contains(j) == (self.contains(j) && other.contains(j)) by {
            lemma_bitwise_bit(self.words@[j / 64], other.words@[j / 64], (j % 64) as u64);
        }
        r
    }

    /// A OR B, word by word over the common length.
    pub fn or(&self, other: &Self) -> (r: DocBits)
        requires
            self.nw == other.nw,
        ensures
            r.nw == self.nw,
            r.words@.len() == min_len(self.words@.len(), other.words@.len()),
            forall|i: int| 0 <= i < r.words@.len() ==> #[trigger] r.words@[i] == self.words@[i] | other.words@[i],
            forall|j: int| 0 <= j < 64 * r.words@.len() ==> #[trigger] r.contains(j) == (self.contains(j) || other.contains(j)),
    {
        let n = if self.words.len() <= other.words.len() { self.words.len() } else { other.words.len() };
        let mut words: Vec<u64> = Vec::new();
        for i in 0..n
            invariant
                n == min_len(self.words@.len(), other.words@.len()),
                words@.len() == i,
                forall|ii: int| 0 <= ii < i ==> #[trigger] words@[ii] == self.words@[ii] | other.words@[ii],
        {
            words.push(self.words[i] | other.words[i]);
        }
        let r = DocBits { words, nw: self.nw };
        assert forall|j: int| 0 <= j < 64 * r.words@.len() implies #[trigger] r.contains(j) == (self.contains(j) || other.contains(j)) by {
            lemma_bitwise_bit(self.words@[j / 64], other.words@[j / 64], (j % 64) as u64);
        }
        r
    }

    /// A XOR B, word by word over the common length.
    pub fn xor(&self, other: &Self) -> (r: DocBits)
        requires
            self.nw == other.nw,
        ensures
            r.nw == self.nw,
            r.words@.len() == min_len(self.words@.len(), other.words@.len()),
            forall|i: int| 0 <= i < r.words@.len() ==> #[trigger] r.words@[i] == self.words@[i] ^ other.words@[i],
            forall|j: int| 0 <= j < 64 * r.words@.len() ==> #[trigger] r.contains(j) == (self.contains(j) != other.contains(j)),
    {
        let n = if self.words.len() <= other.words.len() { self.words.len() } else { other.words.len() };
        let mut words: Vec<u64> = Vec::new();
        for i in 0..n
            invariant
                n == min_len(self.words@.len(), other.words@.len()),
                words@.len() == i,
                forall|ii: int| 0 <= ii < i ==> #[trigger] words@[ii] == self.words@[ii] ^ other.words@[ii],
        {
            words.push(self.words[i] ^ other.words[i]);
        }
        let r = DocBits { words, nw: self.nw };
        assert forall|j: int| 0 <= j < 64 * r.words@.len() implies #[trigger] r.contains(j) == (self.contains(j) != other.contains(j)) by {
            lemma_bitwise_bit(self.words@[j / 64], other.words@[j / 64], (j % 64) as u64);
        }
        r
    }

    /// A AND NOT B (set difference), word by word over the common length.
    pub fn andnot(&self, other: &Self) -> (r: DocBits)
        requires
            self.nw == other.nw,
        ensures
            r.nw == self.nw,
            r.words@.len() == min_len(self.words@.len(), other.words@.len()),
            forall|i: int| 0 <= i < r.words@.len() ==> #[trigger] r.words@[i] == self.words@[i] & !other.words@[i],
            forall|j: int| 0 <= j < 64 * r.words@.len() ==> #[trigger] r.contains(j) == (self.contains(j) && !other.contains(j)),
    {
        let n = if self.words.len() <= other.words.len() { self.words.len() } else { other.words.len() };
        let mut words: Vec<u64> = Vec::new();
        for i in 0..n
            invariant
                n == min_len(self.words@.len(), other.words@.len()),
                words@.len() == i,
                forall|ii: int| 0 <= ii < i ==> #[trigger] words@[ii] == self.words@[ii] & !other.words@[ii],
        {
            words.push(self.words[i] & !other.words[i]);
        }
        let r = DocBits { words, nw: self.nw };
        assert forall|j: int| 0 <= j < 64 * r.words@.len() implies #[trigger] r.contains(j) == (self.contains(j) && !other.contains(j)) by {
            lemma_bitwise_bit(self.words@[j / 64], other.words@[j / 64], (j % 64) as u64);
        }
        r
    }

    /// Cross-correlation of bit products: for each shift `k` in `-max_k ..= max_k`,
    /// in that order, the pair `(k, popcount(A & shift_k(B)))`, where
    /// `shift_k` shifts left by `k` for `k >= 0` and right by `-k` otherwise.
    pub fn xcorr(&self, other: &Self, max_k: usize) -> (r: Vec<(i32, u32)>)
        requires
            max_k <= i32::MAX,
            other.nw <= other.words@.len(),
            64 * self.words@.len() <= u32::MAX,
        ensures
            r@.len() == 2 * max_k + 1,
            forall|m: int|
                #![trigger r@[m]]
                0 <= m < r@.len() ==> r@[m].0 == m - max_k && r@[m].1 == and_count(
                    self.words@,
                    xcorr_shifted(other.words@, other.nw as nat, m - max_k),
                ),
    {
        let mut result: Vec<(i32, u32)> = Vec::new();
        let mut m: usize = 0;
        while m <= 2 * max_k
            invariant
                max_k <= i32::MAX,
                other.nw <= other.words@.len(),
                64 * self.words@.len() <= u32::MAX,
                m <= 2 * max_k + 1,
                result@.len() == m,
                forall|mm: int|
                    #![trigger result@[mm]]
                    0 <= mm < m ==> result@[mm].0 == mm - max_k && result@[mm].1
                        == and_count(
                        self.words@,
                        xcorr_shifted(other.words@, other.nw as nat, mm - max_k),
                    ),
            decreases 2 * max_k + 1 - m,
        {
            let ki: i32 = (m as i64 - max_k as i64) as i32;
            let shifted = if ki >= 0 {
                other.shift_left(ki as usize)
            } else {
                other.shift_right((-ki) as usize)
            };
            let count = and_popcount(self.words.as_slice(), shifted.as_slice());
            result.push((ki, count));
            m = m + 1;
        }
        assert(result@.len() == 2 * max_k + 1);
        result
    }
}

/// The positions of the set bits of `words`, in increasing order.
pub fn set_positions(words: &[u64]) -> (r: Vec<usize>)
    requires
        64 * words@.len() <= usize::MAX,
    ensures
        forall|i: int, j: int| 0 <= i < j < r@.len() ==> r@[i] < r@[j],
        forall|p: int| #[trigger] r@.contains(p as usize) && 0 <= p <= usize::MAX <==> bit_of(words@, p),
        forall|i: int| 0 <= i < r@.len() ==> bit_of(words@, #[trigger] r@[i] as int),
{
    let mut r: Vec<usize> = Vec::new();
    for w in 0..words.len()
        invariant
            64 * words@.len() <= usize::MAX,
            forall|i: int, j: int| 0 <= i < j < r@.len() ==> r@[i] < r@[j],
            forall|i: int| 0 <= i < r@.len() ==> r@[i] < 64 * w,
            forall|i: int| 0 <= i < r@.len() ==> bit_of(words@, #[trigger] r@[i] as int),
            forall|p: int| 0 <= p < 64 * w && bit_of(words@, p) ==> #[trigger] r@.contains(p as usize),
    {
        let x = words[w];
        for b in 0..64u64
            invariant
                64 * words@.len() <= usize::MAX,
                w < words@.len(),
                x == words@[w as int],
                forall|i: int, j: int| 0 <= i < j < r@.len() ==> r@[i] < r@[j],
                forall|i: int| 0 <= i < r@.len() ==> r@[i] < 64 * w + b,
                forall|i: int| 0 <= i < r@.len() ==> bit_of(words@, #[trigger] r@[i] as int),
                forall|p: int| 0 <= p < 64 * w + b && bit_of(words@, p) ==> #[trigger] r@.contains(p as usize),
        {
            let p = w * 64 + b as usize;
            assert(p / 64 == w && p % 64 == b);
            if (x >> b) & 1 == 1 {
                let ghost old_r = r@;
                r.push(p);
                assert forall|q: int| 0 <= q < 64 * w + b + 1 && bit_of(words@, q) implies #[trigger] r@.contains(q as usize) by {
                    if q == p {
                        assert(r@[r@.len() - 1] == p);
                    } else {
                        assert(old_r.contains(q as usize));
                        let t = choose|t: int| 0 <= t < old_r.len() && old_r[t] == q as usize;
                        assert(r@[t] == q as usize);
                    }
                }
            }
        }
    }
    assert forall|p: int| #[trigger] r@.contains(p as usize) && 0 <= p <= usize::MAX implies bit_of(words@, p) by {
        let t = choose|t: int| 0 <= t < r@.len() && r@[t] == p as usize;
    }
    r
}

} // verus!

verus! {

// ── counting set bits by position ───────────────────────────────────────────

/// Number of positions `p` in `lo .. hi` where `f(p)` holds.
pub open spec fn count_range(f: spec_fn(int) -> bool, lo: int, hi: int) -> nat
    decreases hi - lo,
{
    if hi <= lo {
        0
    } else {
        count_range(f, lo, hi - 1) + (if f(hi - 1) {
            1nat
        } else {
            0nat
        })
    }
}

/// A count over a range splits at any point inside it.
proof fn lemma_count_split(f: spec_fn(int) -> bool, lo: int, mid: int, hi: int)
    requires
        lo <= mid <= hi,
    ensures
        count_range(f, lo, hi) == count_range(f, lo, mid) + count_range(f, mid, hi),
    decreases hi - mid,
{
    if mid < hi {
        lemma_count_split(f, lo, mid, hi - 1);
    }
}

/// Counting `g` over a range counts `f` over the range moved by `k`, where
/// `g(p) == f(p + k)`.
proof fn lemma_count_shift(f: spec_fn(int) -> bool, g: spec_fn(int) -> bool, lo: int, hi: int, k: int)
    requires
        forall|p: int| lo <= p < hi ==> #[trigger] g(p) == f(p + k),
    ensures
        count_range(g, lo, hi) == count_range(f, lo + k, hi + k),
    decreases hi - lo,
{
    if lo < hi {
        lemma_count_shift(f, g, lo, hi - 1, k);
        assert(g(hi - 1) == f(hi - 1 + k));
    }
}

/// Where `f` implies `g` or `h`, `f` counts at most what `g` and `h` count together.
pub(crate) proof fn lemma_count_union_bound(
    f: spec_fn(int) -> bool,
    g: spec_fn(int) -> bool,
    h: spec_fn(int) -> bool,
    lo: int,
    hi: int,
)
    requires
        forall|p: int| lo <= p < hi && #[trigger] f(p) ==> g(p) || h(p),
    ensures
        count_range(f, lo, hi) <= count_range(g, lo, hi) + count_range(h, lo, hi),
    decreases hi - lo,
{
    if lo < hi {
        lemma_count_union_bound(f, g, h, lo, hi - 1);
        if f(hi - 1) {
            assert(g(hi - 1) || h(hi - 1));
        }
    }
}

/// A predicate false over a range counts nothing there.
proof fn lemma_count_none(f: spec_fn(int) -> bool, lo: int, hi: int)
    requires
        forall|p: int| lo <= p < hi ==> !#[trigger] f(p),
    ensures
        count_range(f, lo, hi) == 0,
    decreases hi - lo,
{
    if lo < hi {
        lemma_count_none(f, lo, hi - 1);
    }
}

/// Bit `c + 1` of a word is bit `c` of its half, and bit 0 is its parity.
proof fn lemma_word_bit_half(x: u64, c: u64)
    by (bit_vector)
    requires
        c < 63,
    ensures
        ((x >> ((c + 1) as u64)) & 1u64 == 1u64) == (((x / 2) >> c) & 1u64 == 1u64),
        ((x >> 0u64) & 1u64 == 1u64) == (x % 2 == 1),
{
}

/// The set bits of a word below `2^n` are its set bit positions below `n`.
pub(crate) proof fn lemma_popcount_positions(x: u64, n: nat)
    requires
        n <= 64,
        (x as int) < vstd::arithmetic::power2::pow2(n),
    ensures
        popcount(x) == count_range(|c: int| word_bit(x, c), 0, n as int),
    decreases n,
{
    let f = |c: int| word_bit(x, c);
    if n == 0 {
        vstd::arithmetic::power2::lemma2_to64();
        lemma_count_none(f, 0, 0);
    } else {
        vstd::arithmetic::power2::lemma_pow2_unfold(n);
        let h = x / 2;
        let g = |c: int| word_bit(h, c);
        lemma_popcount_positions(h, (n - 1) as nat);
        assert forall|c: int| 0 <= c < n - 1 implies #[trigger] g(c) == f(c + 1) by {
            lemma_word_bit_half(x, c as u64);
        }
        lemma_count_shift(f, g, 0, n - 1, 1);
        lemma_count_split(f, 0, 1, n as int);
        lemma_word_bit_half(x, 0);
        assert(count_range(f, 0, 0) == 0);
        assert(count_range(f, 0, 1) == (if f(0) { 1nat } else { 0nat }));
        if x == 0 {
            assert(h == 0);
        }
    }
}

/// Common set bits of the first `n` word pairs, counted bit position by bit position.
proof fn lemma_and_count_positions(a: Seq<u64>, b: Seq<u64>, n: int)
    requires
        0 <= n <= a.len(),
        n <= b.len(),
    ensures
        and_count_prefix(a, b, n) == count_range(|p: int| bit_of(a, p) && bit_of(b, p), 0, 64 * n),
    decreases n,
{
    let f = |p: int| bit_of(a, p) && bit_of(b, p);
    if n == 0 {
        lemma_count_none(f, 0, 0);
    } else {
        lemma_and_count_positions(a, b, n - 1);
        let w = a[n - 1] & b[n - 1];
        let g = |c: int| word_bit(w, c);
        vstd::arithmetic::power2::lemma2_to64();
        vstd::arithmetic::power2::lemma2_to64_rest();
        lemma_popcount_positions(w, 64);
        assert forall|c: int| 0 <= c < 64 implies #[trigger] g(c) == f(c + 64 * (n - 1)) by {
            lemma_bitwise_bit(a[n - 1], b[n - 1], c as u64);
            assert((c + 64 * (n - 1)) / 64 == n - 1 && (c + 64 * (n - 1)) % 64 == c);
        }
        lemma_count_shift(f, g, 0, 64, 64 * (n - 1));
        lemma_count_split(f, 0, 64 * (n - 1), 64 * n);
    }
}

/// Shifting `b` left by `k` and meeting it with `a` counts the same bits as
/// shifting `a` right by `k` and meeting it with `b`: both count the positions
/// `p` with bit `p` of `a` and bit `p - k` of `b` set.
proof fn lemma_shift_meet(a: Seq<u64>, b: Seq<u64>, k: int)
    requires
        a.len() == b.len(),
        k >= 0,
    ensures
        and_count(a, spec_shift_left(b, b.len(), k)) == and_count(b, spec_shift_right(a, a.len(), k)),
{
    let n = a.len() as int;
    let big = 64 * n;
    let sl = spec_shift_left(b, b.len(), k);
    let sr = spec_shift_right(a, a.len(), k);
    lemma_shift_left_bits(b, b.len(), k);
    lemma_shift_right_bits(a, a.len(), k);
    lemma_and_count_positions(a, sl, n);
    lemma_and_count_positions(b, sr, n);
    let fl = |p: int| bit_of(a, p) && bit_of(sl, p);
    let fr = |q: int| bit_of(b, q) && bit_of(sr, q);
    let h = |p: int| bit_of(a, p) && p >= k && bit_of(b, p - k);
    // the left count is the count of `h` over 0 .. big
    lemma_count_shift(h, fl, 0, big, 0);
    // the right count is the count of `h` over k .. big + k
    assert forall|q: int| 0 <= q < big implies #[trigger] fr(q) == h(q + k) by {
        assert(bit_of(sr, q) == bit_of(a, q + k));
    }
    lemma_count_shift(h, fr, 0, big, k);
    if k <= big {
        lemma_count_split(h, 0, k, big);
        lemma_count_none(h, 0, k);
        lemma_count_split(h, k, big, big + k);
        lemma_count_none(h, big, big + k);
    } else {
        lemma_count_none(h, 0, big);
        lemma_count_none(h, k, big + k);
    }
}

/// Law: the cross-correlation is symmetric. For two sets of one width `n`, the
/// count at shift `k` of `a` against `b` is the count at shift `-k` of `b`
/// against `a`: `xcorr(A, B)[k] == xcorr(B, A)[-k]`.
pub proof fn lemma_xcorr_symmetric(a: Seq<u64>, b: Seq<u64>, n: nat, k: int)
    requires
        a.len() == n,
        b.len() == n,
    ensures
        and_count(a, xcorr_shifted(b, n, k)) == and_count(b, xcorr_shifted(a, n, -k)),
{
    if k > 0 {
        lemma_shift_meet(a, b, k);
    } else if k < 0 {
        lemma_shift_meet(b, a, -k);
    } else {
        assert(xcorr_shifted(b, n, 0) =~= b);
        assert(xcorr_shifted(a, n, 0) =~= a);
        lemma_and_count_inner_product(a, b);
    }
}

} // verus!
