//! Population count of machine words.
use vstd::prelude::*;

verus! {

/// Number of set bits of `x`.
pub open spec fn popcount(x: u64) -> nat
    decreases x,
{
    if x == 0 {
        0
    } else {
        popcount(x / 2) + (x % 2) as nat
    }
}

/// Every word has at most 64 set bits.
pub proof fn lemma_popcount_le_64(x: u64)
    ensures
        popcount(x) <= 64,
{
    vstd::arithmetic::power2::lemma2_to64();
    lemma_popcount_bound(x, 64);
}

proof fn lemma_popcount_bound(x: u64, n: nat)
    requires
        n <= 64,
        (x as int) < vstd::arithmetic::power2::pow2(n),
    ensures
        popcount(x) <= n,
    decreases n,
{
    if n == 0 {
        vstd::arithmetic::power2::lemma2_to64();
    } else if x != 0 {
        vstd::arithmetic::power2::lemma_pow2_unfold(n);
        lemma_popcount_bound(x / 2, (n - 1) as nat);
    }
}

/// The set bits of a word and of its complement number 64 together.
pub proof fn lemma_popcount_complement(x: u64)
    ensures
        popcount(x) + popcount(!x) == 64,
{
    vstd::arithmetic::power2::lemma2_to64();
    vstd::arithmetic::power2::lemma2_to64_rest();
    assert(!x == 0xFFFF_FFFF_FFFF_FFFFu64 - x) by (bit_vector);
    lemma_popcount_complement_below(x, 64);
}

proof fn lemma_popcount_complement_below(x: u64, n: nat)
    requires
        n <= 64,
        (x as int) < vstd::arithmetic::power2::pow2(n),
    ensures
        popcount(x) + popcount((vstd::arithmetic::power2::pow2(n) - 1 - x) as u64) == n,
    decreases n,
{
    if n == 0 {
        vstd::arithmetic::power2::lemma2_to64();
    } else {
        vstd::arithmetic::power2::lemma_pow2_unfold(n);
        vstd::arithmetic::power2::lemma2_to64();
        vstd::arithmetic::power2::lemma2_to64_rest();
        vstd::arithmetic::power2::lemma_pow2_pos((n - 1) as nat);
        let p = vstd::arithmetic::power2::pow2((n - 1) as nat);
        assert(p <= 0x8000_0000_0000_0000) by {
            if n - 1 < 63 {
                vstd::arithmetic::power2::lemma_pow2_strictly_increases((n - 1) as nat, 63);
            }
        }
        let y = (2 * p - 1 - x) as u64;
        let q = x / 2;
        assert(y / 2 == p - 1 - q);
        assert(y % 2 == 1 - x % 2);
        lemma_popcount_complement_below(q, (n - 1) as nat);
        assert(popcount(y) == popcount(y / 2) + (y % 2) as nat);
        assert((p - 1 - q) as u64 == y / 2);
    }
}

/// Number of set bits of the first `n` words of `words`.
pub open spec fn popcount_prefix(words: Seq<u64>, n: int) -> nat
    decreases n,
{
    if n <= 0 {
        0
    } else {
        popcount_prefix(words, n - 1) + popcount(words[n - 1])
    }
}

/// Number of set bits of a word sequence.
pub open spec fn popcount_sum(words: Seq<u64>) -> nat {
    popcount_prefix(words, words.len() as int)
}

/// The first `n` words hold at most `64 n` set bits.
pub proof fn lemma_popcount_prefix_bound(words: Seq<u64>, n: int)
    requires
        0 <= n <= words.len(),
    ensures
        popcount_prefix(words, n) <= 64 * n,
    decreases n,
{
    if n > 0 {
        lemma_popcount_prefix_bound(words, n - 1);
        lemma_popcount_le_64(words[n - 1]);
    }
}

/// The set bits of `x` split into those inside `y` and those outside it.
pub proof fn lemma_popcount_split(x: u64, y: u64)
    ensures
        popcount(x & !y) + popcount(x & y) == popcount(x),
    decreases x,
{
    if x == 0 {
        assert(x & !y == 0 && x & y == 0) by (bit_vector)
            requires
                x == 0,
        ;
    } else {
        let a = x & !y;
        let b = x & y;
        assert(a / 2 == (x / 2) & !(y / 2) && b / 2 == (x / 2) & (y / 2) && a % 2 + b % 2 == x % 2)
            by (bit_vector)
            requires
                a == x & !y,
                b == x & y,
        ;
        assert(a == 0 ==> a / 2 == 0 && a % 2 == 0);
        assert(b == 0 ==> b / 2 == 0 && b % 2 == 0);
        lemma_popcount_split(x / 2, y / 2);
    }
}

/// Number of set bits of a word.
pub fn popcount64(x: u64) -> (r: u32)
    ensures
        r == popcount(x),
        r <= 64,
{
    let mut v = x;
    let mut c: u32 = 0;
    proof {
        lemma_popcount_le_64(x);
    }
    while v != 0
        invariant
            c + popcount(v) == popcount(x),
            popcount(x) <= 64,
        decreases v,
    {
        c = c + (v % 2) as u32;
        v = v / 2;
    }
    c
}

} // verus!
