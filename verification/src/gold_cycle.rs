//! GOLD sequences, circular cross-correlation and nibble edits: the parts of the
//! alignment-guided nibble walk that compute, without the compiler oracle.
use vstd::prelude::*;

verus! {

// ── m-sequence / GOLD sequence ──────────────────────────────────────────────

/// `2^n`.
pub open spec fn bit_weight(n: nat) -> nat
    decreases n,
{
    if n == 0 {
        1
    } else {
        2 * bit_weight((n - 1) as nat)
    }
}

/// The low `n` bits of `t` in reverse order: bit `j` of `t` becomes bit `n - 1 - j`.
pub open spec fn reverse_bits(t: nat, n: nat) -> nat
    decreases n,
{
    if n == 0 {
        0
    } else {
        (if t % 2 == 1 {
            bit_weight((n - 1) as nat)
        } else {
            0
        }) + reverse_bits(t / 2, (n - 1) as nat)
    }
}

/// The feedback mask of the tap polynomial `tap`: bit `j` of `tap` is the
/// coefficient of `x^j` (the term `x^10` is implicit), and it taps state bit `9 - j`,
/// the bit that was shifted in `j` steps after the output bit.  For `tap = 0x09`,
/// that is `x^10 + x^3 + 1`, the mask holds bits 9 and 6.
pub open spec fn feedback_mask(tap: u32) -> nat {
    reverse_bits(tap as nat, 10)
}

/// The parity of the bits that `s` and `m` share among their low `n` bits.
pub open spec fn masked_parity(s: nat, m: nat, n: nat) -> bool
    decreases n,
{
    if n == 0 {
        false
    } else {
        masked_parity(s / 2, m / 2, (n - 1) as nat) != (s % 2 == 1 && m % 2 == 1)
    }
}

/// One step of the degree-10 Fibonacci LFSR: the state shifts left by one bit,
/// bit 9 drops out, and the parity of the tapped bits enters as bit 0.
pub open spec fn lfsr_step(tap: u32, s: nat) -> nat {
    2 * (s % 512) + (if masked_parity(s, feedback_mask(tap), 10) {
        1nat
    } else {
        0nat
    })
}

/// The state of the LFSR of tap polynomial `tap` after `k` steps from state 1.
pub open spec fn lfsr_state(tap: u32, k: nat) -> nat
    decreases k,
{
    if k == 0 {
        1
    } else {
        lfsr_step(tap, lfsr_state(tap, (k - 1) as nat))
    }
}

/// Output `k` of the m-sequence: +1 when bit 9 of the state is set, -1 otherwise.
pub open spec fn m_seq_at(tap: u32, k: nat) -> i32 {
    if lfsr_state(tap, k) >= 512 {
        1i32
    } else {
        -1i32
    }
}

/// The length of the degree-10 sequences: 2^10 - 1.
pub const SEQ_LEN: usize = 1023;

/// The decimation of the preferred pair.
pub const DECIMATION: usize = 65;

/// The reversed low `n` bits are below `2^n`.
pub proof fn lemma_reverse_bits_bound(t: nat, n: nat)
    ensures
        reverse_bits(t, n) < bit_weight(n),
    decreases n,
{
    if n > 0 {
        lemma_reverse_bits_bound(t / 2, (n - 1) as nat);
    }
}

/// The feedback mask of a tap polynomial.
fn tap_feedback_mask(tap: u32) -> (m: u32)
    ensures
        m == feedback_mask(tap),
        m < 1024,
{
    proof {
        lemma_reverse_bits_bound(tap as nat, 10);
        reveal_with_fuel(bit_weight, 11);
    }
    let mut t = tap;
    let mut m: u32 = 0;
    let mut w: u32 = 512;
    let mut j: u32 = 0;
    while j < 10
        invariant
            j <= 10,
            w <= 512,
            j < 10 ==> w == bit_weight((9 - j) as nat),
            m + reverse_bits(t as nat, (10 - j) as nat) == reverse_bits(tap as nat, 10),
            reverse_bits(tap as nat, 10) < 1024,
        decreases 10 - j,
    {
        if t % 2 == 1 {
            m = m + w;
        }
        t = t / 2;
        w = w / 2;
        j = j + 1;
    }
    m
}

/// The parity of the bits that `s` and `m` share among their low 10 bits.
fn masked_parity_10(s: u32, m: u32) -> (p: bool)
    ensures
        p == masked_parity(s as nat, m as nat, 10),
{
    let mut x = s;
    let mut y = m;
    let mut acc = false;
    let mut i: u32 = 0;
    while i < 10
        invariant
            i <= 10,
            (acc != masked_parity(x as nat, y as nat, (10 - i) as nat)) == masked_parity(s as nat, m as nat, 10),
        decreases 10 - i,
    {
        if x % 2 == 1 && y % 2 == 1 {
            acc = !acc;
        }
        x = x / 2;
        y = y / 2;
        i = i + 1;
    }
    acc
}

/// The 1023 outputs ({-1, +1}) of the degree-10 LFSR of tap polynomial `tap_poly`,
/// from state 1.  Where `tap_poly` stands for a primitive polynomial, this is one
/// period of an m-sequence (for 0x09, see [`lemma_m_seq_period`]).
pub fn m_seq_10(tap_poly: u32) -> (r: Vec<i32>)
    ensures
        r@.len() == 1023,
        forall|k: int| 0 <= k < 1023 ==> #[trigger] r@[k] == m_seq_at(tap_poly, k as nat),
{
    let mask = tap_feedback_mask(tap_poly);
    let mut state: u32 = 1;
    let mut seq: Vec<i32> = Vec::new();
    for k in 0..1023u32
        invariant
            mask == feedback_mask(tap_poly),
            state == lfsr_state(tap_poly, k as nat),
            state < 1024,
            seq@.len() == k,
            forall|j: int| 0 <= j < k ==> #[trigger] seq@[j] == m_seq_at(tap_poly, j as nat),
    {
        seq.push(if state >= 512 {
            1i32
        } else {
            -1i32
        });
        let fb = masked_parity_10(state, mask);
        state = 2 * (state % 512) + if fb {
            1u32
        } else {
            0u32
        };
    }
    seq
}

/// Greatest common divisor.
pub open spec fn gcd(a: nat, b: nat) -> nat
    decreases b,
{
    if b == 0 {
        a
    } else {
        gcd(b, a % b)
    }
}

/// The decimation of the preferred pair is prime to the sequence length, so the
/// decimated sequence is again of maximal length.
pub proof fn lemma_decimation_coprime()
    ensures
        gcd(DECIMATION as nat, SEQ_LEN as nat) == 1,
{
    assert(gcd(1, 0) == 1);
    assert(gcd(2, 1) == 1);
    assert(gcd(3, 2) == 1);
    assert(gcd(14, 3) == 1);
    assert(gcd(17, 14) == 1);
    assert(gcd(48, 17) == 1);
    assert(gcd(65, 48) == 1);
    assert(gcd(1023, 65) == 1);
    assert(gcd(65, 1023) == 1);
}

/// Element `i` of the GOLD sequence: the m-sequence of tap 0x09 times its
/// decimation by 65.
pub open spec fn gold_at(i: int) -> i32 {
    (m_seq_at(0x09, i as nat) * m_seq_at(0x09, ((65 * i) % 1023) as nat)) as i32
}

/// The GOLD sequence ({-1, +1}, length 1023) of the preferred pair (0x09, 65).
pub fn gold_seq() -> (r: Vec<i32>)
    ensures
        r@.len() == 1023,
        forall|i: int| 0 <= i < 1023 ==> #[trigger] r@[i] == gold_at(i),
        forall|i: int| 0 <= i < 1023 ==> #[trigger] r@[i] == 1 || r@[i] == -1,
{
    let m1 = m_seq_10(0x09);
    let l = m1.len();
    let d = DECIMATION;
    let mut out: Vec<i32> = Vec::new();
    for i in 0..l
        invariant
            l == 1023,
            d == 65,
            m1@.len() == 1023,
            forall|k: int| 0 <= k < 1023 ==> #[trigger] m1@[k] == m_seq_at(0x09, k as nat),
            out@.len() == i,
            forall|j: int| 0 <= j < i ==> #[trigger] out@[j] == gold_at(j),
            forall|j: int| 0 <= j < i ==> #[trigger] out@[j] == 1 || out@[j] == -1,
    {
        let a = m1[i];
        let b = m1[(d * i) % l];
        out.push(a * b);
    }
    out
}

// ── circular cross-correlation ──────────────────────────────────────────────

/// `sum_{i < t} a[i] * b[(i + k) mod |b|]`.
pub open spec fn xcorr_partial(a: Seq<int>, b: Seq<int>, k: int, t: int) -> int
    decreases t,
{
    if t <= 0 {
        0
    } else {
        xcorr_partial(a, b, k, t - 1) + a[t - 1] * b[(t - 1 + k) % (b.len() as int)]
    }
}

/// The circular cross-correlation `corr[k] = sum_i a[i] * b[(i + k) mod |b|]`
/// for `k < |b|`; empty when either side is empty.
pub open spec fn circ_xcorr(a: Seq<int>, b: Seq<int>) -> Seq<int> {
    if a.len() == 0 || b.len() == 0 {
        seq![]
    } else {
        Seq::new(b.len(), |k: int| xcorr_partial(a, b, k, a.len() as int))
    }
}

/// A sequence of machine integers as mathematical integers.
pub open spec fn ints_i64(s: Seq<i64>) -> Seq<int> {
    s.map_values(|x: i64| x as int)
}

/// Every product and partial sum of the cross-correlation of `a` and `b` fits in an `i64`.
pub open spec fn xcorr_fits(a: Seq<int>, b: Seq<int>) -> bool {
    b.len() > 0 ==> forall|k: int, t: int|
        0 <= k < b.len() && 0 <= t <= a.len() ==> {
            &&& i64::MIN <= #[trigger] xcorr_partial(a, b, k, t) <= i64::MAX
            &&& t < a.len() ==> i64::MIN <= a[t] * b[(t + k) % (b.len() as int)] <= i64::MAX
        }
}

/// Circular cross-correlation over 64-bit integers.
pub fn circ_xcorr_i64(a: &[i64], b: &[i64]) -> (r: Vec<i64>)
    requires
        xcorr_fits(ints_i64(a@), ints_i64(b@)),
    ensures
        ints_i64(r@) == circ_xcorr(ints_i64(a@), ints_i64(b@)),
{
    let n = a.len();
    let m = b.len();
    let ghost ai = ints_i64(a@);
    let ghost bi = ints_i64(b@);
    let mut out: Vec<i64> = Vec::new();
    if n == 0 || m == 0 {
        assert(ints_i64(out@) =~= circ_xcorr(ai, bi));
        return out;
    }
    for k in 0..m
        invariant
            n == a@.len(),
            m == b@.len(),
            n > 0 && m > 0,
            ai == ints_i64(a@),
            bi == ints_i64(b@),
            xcorr_fits(ai, bi),
            out@.len() == k,
            forall|j: int| 0 <= j < k ==> #[trigger] out@[j] == xcorr_partial(ai, bi, j, n as int),
    {
        let mut s: i64 = 0;
        for i in 0..n
            invariant
                n == a@.len(),
                m == b@.len(),
                k < m,
                ai == ints_i64(a@),
                bi == ints_i64(b@),
                xcorr_fits(ai, bi),
                s == xcorr_partial(ai, bi, k as int, i as int),
        {
            let im = i % m;
            let j = if im >= m - k {
                im - (m - k)
            } else {
                im + k
            };
            assert(j == (i + k) % (m as int)) by {
                vstd::arithmetic::div_mod::lemma_add_mod_noop(i as int, k as int, m as int);
                vstd::arithmetic::div_mod::lemma_small_mod(k as nat, m as nat);
                if im >= m - k {
                    vstd::arithmetic::div_mod::lemma_fundamental_div_mod_converse(
                        im + k,
                        m as int,
                        1,
                        j as int,
                    );
                } else {
                    vstd::arithmetic::div_mod::lemma_small_mod((im + k) as nat, m as nat);
                }
            }
            assert(0 <= k < bi.len() && 0 <= i + 1 <= ai.len());
            assert(i64::MIN <= xcorr_partial(ai, bi, k as int, i + 1) <= i64::MAX);
            assert(i64::MIN <= ai[i as int] * bi[(i + k) % (m as int)] <= i64::MAX);
            s = s + a[i] * b[j];
        }
        out.push(s);
    }
    assert(ints_i64(out@) =~= circ_xcorr(ai, bi));
    out
}

/// Widens 32-bit integers.
fn widen_i32(a: &[i32]) -> (r: Vec<i64>)
    ensures
        ints_i64(r@) == ints_i32(a@),
{
    let mut r: Vec<i64> = Vec::new();
    for i in 0..a.len()
        invariant
            r@.len() == i,
            forall|j: int| 0 <= j < i ==> #[trigger] r@[j] == a@[j],
    {
        r.push(a[i] as i64);
    }
    assert(ints_i64(r@) =~= ints_i32(a@));
    r
}

/// Widens bytes.
fn widen_u8(a: &[u8]) -> (r: Vec<i64>)
    ensures
        ints_i64(r@) == ints_u8(a@),
{
    let mut r: Vec<i64> = Vec::new();
    for i in 0..a.len()
        invariant
            r@.len() == i,
            forall|j: int| 0 <= j < i ==> #[trigger] r@[j] == a@[j],
    {
        r.push(a[i] as i64);
    }
    assert(ints_i64(r@) =~= ints_u8(a@));
    r
}

/// 32-bit integers as mathematical integers.
pub open spec fn ints_i32(s: Seq<i32>) -> Seq<int> {
    s.map_values(|x: i32| x as int)
}

/// Bytes as mathematical integers.
pub open spec fn ints_u8(s: Seq<u8>) -> Seq<int> {
    s.map_values(|x: u8| x as int)
}

/// Circular cross-correlation of {-1, +1} (or any 32-bit) sequences.
pub fn circ_xcorr_bin(a: &[i32], b: &[i32]) -> (r: Vec<i64>)
    requires
        xcorr_fits(ints_i32(a@), ints_i32(b@)),
    ensures
        ints_i64(r@) == circ_xcorr(ints_i32(a@), ints_i32(b@)),
{
    let wa = widen_i32(a);
    let wb = widen_i32(b);
    circ_xcorr_i64(&wa, &wb)
}

/// Circular cross-correlation of nibble (or any byte) sequences.
pub fn circ_xcorr_nib(a: &[u8], b: &[u8]) -> (r: Vec<i64>)
    requires
        xcorr_fits(ints_u8(a@), ints_u8(b@)),
    ensures
        ints_i64(r@) == circ_xcorr(ints_u8(a@), ints_u8(b@)),
{
    let wa = widen_u8(a);
    let wb = widen_u8(b);
    circ_xcorr_i64(&wa, &wb)
}

/// With every value of `a` and `b` at most `bound` in size, a partial sum over `t`
/// terms is at most `t * bound^2` in size.
pub proof fn lemma_xcorr_partial_bound(a: Seq<int>, b: Seq<int>, k: int, t: int, bound: int)
    requires
        0 <= t <= a.len(),
        b.len() > 0,
        bound >= 0,
        forall|i: int| 0 <= i < a.len() ==> -bound <= #[trigger] a[i] <= bound,
        forall|j: int| 0 <= j < b.len() ==> -bound <= #[trigger] b[j] <= bound,
    ensures
        -(t * (bound * bound)) <= xcorr_partial(a, b, k, t) <= t * (bound * bound),
    decreases t,
{
    if t > 0 {
        lemma_xcorr_partial_bound(a, b, k, t - 1, bound);
        let x = a[t - 1];
        let j = (t - 1 + k) % (b.len() as int);
        let y = b[j];
        assert(-(bound * bound) <= x * y <= bound * bound) by (nonlinear_arith)
            requires
                -bound <= x <= bound,
                -bound <= y <= bound,
        ;
        assert(t * (bound * bound) == (t - 1) * (bound * bound) + bound * bound) by (nonlinear_arith);
    }
}

/// Sequences whose values are at most `bound` in size, with `|a| * bound^2` within
/// the `i64` range, have a cross-correlation that fits.
pub proof fn lemma_xcorr_fits_small(a: Seq<int>, b: Seq<int>, bound: int)
    requires
        bound >= 0,
        a.len() * (bound * bound) <= i64::MAX,
        forall|i: int| 0 <= i < a.len() ==> -bound <= #[trigger] a[i] <= bound,
        forall|j: int| 0 <= j < b.len() ==> -bound <= #[trigger] b[j] <= bound,
    ensures
        xcorr_fits(a, b),
{
    if b.len() > 0 {
        assert forall|k: int, t: int| 0 <= k < b.len() && 0 <= t <= a.len() implies {
            &&& i64::MIN <= #[trigger] xcorr_partial(a, b, k, t) <= i64::MAX
            &&& t < a.len() ==> i64::MIN <= a[t] * b[(t + k) % (b.len() as int)] <= i64::MAX
        } by {
            lemma_xcorr_partial_bound(a, b, k, t, bound);
            assert(t * (bound * bound) <= a.len() * (bound * bound)) by (nonlinear_arith)
                requires
                    0 <= t <= a.len(),
                    bound >= 0,
            ;
            if t < a.len() {
                let x = a[t];
                let y = b[(t + k) % (b.len() as int)];
                assert(-(bound * bound) <= x * y <= bound * bound) by (nonlinear_arith)
                    requires
                        -bound <= x <= bound,
                        -bound <= y <= bound,
                ;
                assert(bound * bound <= a.len() * (bound * bound)) by (nonlinear_arith)
                    requires
                        0 <= t < a.len(),
                        bound >= 0,
                ;
            }
        }
    }
}

// ── ranking of shifts ───────────────────────────────────────────────────────

/// Shift `i` ranks before shift `j`: a higher score, or an equal score and a smaller index.
pub open spec fn shift_before(x: Seq<i64>, i: int, j: int) -> bool {
    x[i] > x[j] || (x[i] == x[j] && i < j)
}

/// The `k` shifts of highest score, best first; shifts of equal score keep their
/// index order (a stable sort by descending score, cut to `k`).
pub fn top_k_shifts(xcorr: &[i64], k: usize) -> (r: Vec<usize>)
    ensures
        r@.len() == (if k <= xcorr@.len() { k as int } else { xcorr@.len() as int }),
        forall|t: int| 0 <= t < r@.len() ==> #[trigger] r@[t] < xcorr@.len(),
        forall|t: int, u: int|
            0 <= t < u < r@.len() ==> shift_before(xcorr@, #[trigger] r@[t] as int, #[trigger] r@[u] as int),
        forall|j: int, t: int|
            0 <= j < xcorr@.len() && 0 <= t < r@.len() && !r@.contains(j as usize) ==> #[trigger] shift_before(
                xcorr@,
                r@[t] as int,
                j,
            ),
{
    let n = xcorr.len();
    let m = if k <= n {
        k
    } else {
        n
    };
    let mut chosen: Vec<bool> = Vec::new();
    for i in 0..n
        invariant
            chosen@ == Seq::new(i as nat, |j: int| false),
    {
        chosen.push(false);
        assert(chosen@ =~= Seq::new((i + 1) as nat, |j: int| false));
    }
    let mut out: Vec<usize> = Vec::new();
    for t in 0..m
        invariant
            n == xcorr@.len(),
            m <= n,
            chosen@.len() == n,
            out@.len() == t,
            forall|j: int| 0 <= j < n ==> (#[trigger] chosen@[j] <==> out@.contains(j as usize)),
            forall|u: int| 0 <= u < out@.len() ==> #[trigger] out@[u] < n,
            forall|u: int, v: int|
                0 <= u < v < out@.len() ==> shift_before(xcorr@, #[trigger] out@[u] as int, #[trigger] out@[v] as int),
            forall|j: int, u: int|
                0 <= j < n && 0 <= u < out@.len() && !chosen@[j] ==> #[trigger] shift_before(
                    xcorr@,
                    out@[u] as int,
                    j,
                ),
    {
        assert(exists|j: int| 0 <= j < n && !chosen@[j]) by {
            if forall|j: int| 0 <= j < n ==> chosen@[j] {
                assert forall|j: int| 0 <= j < n implies #[trigger] out@.contains(j as usize) by {
                    assert(chosen@[j]);
                }
                assert forall|u: int, v: int| 0 <= u < v < out@.len() implies out@[u] != out@[v] by {
                    assert(shift_before(xcorr@, out@[u] as int, out@[v] as int));
                }
                lemma_covering_list_len(out@, n as int);
            }
        }
        let mut best: usize = n;
        for j in 0..n
            invariant
                n == xcorr@.len(),
                chosen@.len() == n,
                best == n || (best < j && !chosen@[best as int]),
                best == n ==> forall|i: int| 0 <= i < j ==> #[trigger] chosen@[i],
                best < n ==> forall|i: int|
                    0 <= i < j && i != best && !chosen@[i] ==> shift_before(xcorr@, best as int, i),
        {
            if !chosen[j] {
                if best == n || xcorr[j] > xcorr[best] {
                    best = j;
                }
            }
        }
        assert(best < n);
        let ghost old_out = out@;
        let ghost old_chosen = chosen@;
        chosen.set(best, true);
        out.push(best);
        assert forall|j: int| 0 <= j < n implies (#[trigger] chosen@[j] <==> out@.contains(j as usize)) by {
            if j == best {
                assert(out@[t as int] == best);
            } else {
                if out@.contains(j as usize) {
                    let u = choose|u: int| 0 <= u < out@.len() && out@[u] == j as usize;
                    assert(u < t);
                    assert(old_out[u] == j as usize);
                    assert(old_out.contains(j as usize));
                }
                if old_out.contains(j as usize) {
                    let u = choose|u: int| 0 <= u < old_out.len() && old_out[u] == j as usize;
                    assert(out@[u] == j as usize);
                }
                assert(chosen@[j] == old_chosen[j]);
            }
        }
    }
    out
}

// ── nibble encoders ─────────────────────────────────────────────────────────

/// The sign of a nibble: +1 for 8..=15, -1 below.
pub open spec fn nib_sign(v: u8) -> i32 {
    if v >= 8 {
        1i32
    } else {
        -1i32
    }
}

/// Nibble `j` of a byte string: even `j` takes the high nibble of byte `j / 2`,
/// odd `j` its low nibble.
pub open spec fn nibble_at(data: Seq<u8>, j: int) -> u8 {
    if j % 2 == 0 {
        data[j / 2] >> 4u8
    } else {
        data[j / 2] & 0x0fu8
    }
}

/// The nibbles of a byte string, high nibble first.
pub open spec fn nibbles(data: Seq<u8>) -> Seq<u8> {
    Seq::new(2 * data.len(), |j: int| nibble_at(data, j))
}

/// Bytes to binary nibble signs ({-1, +1}, two per byte, high nibble first).
pub fn to_bin_nib(data: &[u8]) -> (r: Vec<i32>)
    ensures
        r@.len() == 2 * data@.len(),
        forall|j: int| 0 <= j < r@.len() ==> #[trigger] r@[j] == nib_sign(nibble_at(data@, j)),
{
    let mut r: Vec<i32> = Vec::new();
    for i in 0..data.len()
        invariant
            r@.len() == 2 * i,
            forall|j: int| 0 <= j < r@.len() ==> #[trigger] r@[j] == nib_sign(nibble_at(data@, j)),
    {
        let b = data[i];
        let hi = if (b >> 4) >= 8 {
            1i32
        } else {
            -1i32
        };
        let lo = if (b & 0x0f) >= 8 {
            1i32
        } else {
            -1i32
        };
        r.push(hi);
        r.push(lo);
        assert((2 * i) / 2 == i && (2 * i) % 2 == 0 && (2 * i + 1) / 2 == i && (2 * i + 1) % 2 == 1);
    }
    r
}

/// Bytes to their nibbles (0..=15, two per byte, high nibble first).
pub fn to_nib_seq(data: &[u8]) -> (r: Vec<u8>)
    ensures
        r@ == nibbles(data@),
{
    let mut r: Vec<u8> = Vec::new();
    for i in 0..data.len()
        invariant
            r@.len() == 2 * i,
            forall|j: int| 0 <= j < r@.len() ==> #[trigger] r@[j] == nibble_at(data@, j),
    {
        let b = data[i];
        r.push(b >> 4);
        r.push(b & 0x0f);
        assert((2 * i) / 2 == i && (2 * i) % 2 == 0 && (2 * i + 1) / 2 == i && (2 * i + 1) % 2 == 1);
    }
    assert(r@ =~= nibbles(data@));
    r
}

/// A sign as a nibble: 0x8 for a non-negative sign, 0x0 otherwise.
pub fn bin_to_nib(sign: i32) -> (r: u8)
    ensures
        r == (if sign >= 0 { 8u8 } else { 0u8 }),
{
    if sign >= 0 {
        0x8
    } else {
        0x0
    }
}

/// `src` with nibble `nib_idx` (even: high nibble of byte `nib_idx / 2`, odd: its
/// low nibble) replaced by `new_nib`; `src` itself when the byte is past the end.
/// The new nibble is shifted or or-ed in as a byte, so bits of `new_nib` above
/// the low four reach the neighbouring nibble.
pub open spec fn set_nibble(src: Seq<u8>, nib_idx: int, new_nib: u8) -> Seq<u8> {
    let p = nib_idx / 2;
    if p >= src.len() {
        src
    } else if nib_idx % 2 == 0 {
        src.update(p, (src[p] & 0x0fu8) | ((new_nib << 4u8) as u8))
    } else {
        src.update(p, (src[p] & 0xf0u8) | new_nib)
    }
}

/// A copy of a byte slice.
pub(crate) fn copy_bytes(src: &[u8]) -> (r: Vec<u8>)
    ensures
        r@ == src@,
{
    let mut r: Vec<u8> = Vec::new();
    for i in 0..src.len()
        invariant
            r@ == src@.take(i as int),
    {
        r.push(src[i]);
        assert(src@.take(i + 1) =~= src@.take(i as int).push(src@[i as int]));
    }
    assert(src@.take(src@.len() as int) =~= src@);
    r
}

/// A copy of `src` with one nibble replaced (see [`set_nibble`]).
pub fn apply_nib_pos(src: &[u8], nib_idx: usize, new_nib: u8) -> (r: Vec<u8>)
    ensures
        r@ == set_nibble(src@, nib_idx as int, new_nib),
{
    let byte_pos = nib_idx / 2;
    let upper = (nib_idx % 2) == 0;
    let mut out = copy_bytes(src);
    if byte_pos >= out.len() {
        return out;
    }
    if upper {
        let v = (out[byte_pos] & 0x0f) | (new_nib << 4);
        out.set(byte_pos, v);
    } else {
        let v = (out[byte_pos] & 0xf0) | new_nib;
        out.set(byte_pos, v);
    }
    out
}

/// Number of nibbles equal to `v` in the first `n` bytes of `d`.
pub open spec fn nib_hist(d: Seq<u8>, v: int, n: int) -> nat
    decreases n,
{
    if n <= 0 {
        0
    } else {
        nib_hist(d, v, n - 1) + (if (d[n - 1] >> 4u8) == v {
            1nat
        } else {
            0nat
        }) + (if (d[n - 1] & 0x0fu8) == v {
            1nat
        } else {
            0nat
        })
    }
}

/// Nibble histogram: entry `v` counts the nibbles of `d` equal to `v`.
pub fn u4_freq(d: &[u8]) -> (h: [u32; 16])
    requires
        2 * d@.len() <= u32::MAX,
    ensures
        forall|v: int| 0 <= v < 16 ==> #[trigger] h@[v] == nib_hist(d@, v, d@.len() as int),
{
    let mut h = [0u32; 16];
    let mut i: usize = 0;
    while i < d.len()
        invariant
            i <= d@.len(),
            2 * d@.len() <= u32::MAX,
            forall|v: int|
                0 <= v < 16 ==> #[trigger] h@[v] == nib_hist(d@, v, i as int) && nib_hist(d@, v, i as int)
                    <= 2 * i,
        decreases d@.len() - i,
    {
        let b = d[i];
        let hi = (b >> 4) as usize;
        let lo = (b & 0xf) as usize;
        assert(hi < 16 && lo < 16) by (bit_vector)
            requires
                hi == (b >> 4u8) as usize,
                lo == (b & 0xfu8) as usize,
        ;
        let ghost h0 = h@;
        assert(h0[hi as int] <= 2 * i);
        h[hi] = h[hi] + 1;
        assert(h0[lo as int] <= 2 * i);
        assert(h@[lo as int] <= 2 * i + 1);
        h[lo] = h[lo] + 1;
        assert forall|v: int| 0 <= v < 16 implies #[trigger] h@[v] == nib_hist(d@, v, i + 1)
            && nib_hist(d@, v, i + 1) <= 2 * (i + 1) by {
            assert(h0[v] == nib_hist(d@, v, i as int));
            assert(nib_hist(d@, v, i + 1) == nib_hist(d@, v, i as int) + (if (d@[i as int] >> 4u8)
                == v {
                1nat
            } else {
                0nat
            }) + (if (d@[i as int] & 0x0fu8) == v {
                1nat
            } else {
                0nat
            }));
        }
        i = i + 1;
    }
    h
}

// ── fixed-seed LCG ──────────────────────────────────────────────────────────

/// The multiplier of the generator (Knuth's MMIX constant).
pub const LCG_MUL: u64 = 6364136223846793005;

/// The increment of the generator.
pub const LCG_INC: u64 = 1442695040888963407;

/// One step of the generator: `state * LCG_MUL + LCG_INC` modulo 2^64.
#[verifier::opaque]
pub open spec fn lcg_step(state: u64) -> u64 {
    state.wrapping_mul(LCG_MUL).wrapping_add(LCG_INC)
}

/// The state after `n` steps.
pub open spec fn lcg_iter(state: u64, n: nat) -> u64
    decreases n,
{
    if n == 0 {
        state
    } else {
        lcg_step(lcg_iter(state, (n - 1) as nat))
    }
}

/// 64-bit linear congruential generator; a fixed seed gives the same stream on
/// every run.
pub struct Lcg64 {
    state: u64,
}

impl View for Lcg64 {
    type V = u64;

    /// The current state.
    closed spec fn view(&self) -> u64 {
        self.state
    }
}

impl Lcg64 {
    /// A generator seeded with `s` (its state is `s + 1` modulo 2^64).
    pub fn new(s: u64) -> (r: Self)
        ensures
            r@ == s.wrapping_add(1),
    {
        Lcg64 { state: s.wrapping_add(1) }
    }

    /// Advances the state one step and returns the new state.
    pub fn next(&mut self) -> (r: u64)
        ensures
            final(self)@ == lcg_step(old(self)@),
            r == final(self)@,
    {
        self.state = self.state.wrapping_mul(LCG_MUL).wrapping_add(LCG_INC);
        proof {
            reveal(lcg_step);
        }
        self.state
    }

    /// A value below `n` (the next state, as a `usize`, modulo `n`); 0 without a
    /// step when `n` is 0.
    pub fn next_usize(&mut self, n: usize) -> (r: usize)
        ensures
            n == 0 ==> r == 0 && final(self)@ == old(self)@,
            n > 0 ==> final(self)@ == lcg_step(old(self)@) && r == (lcg_step(old(self)@) as usize) % n,
    {
        if n == 0 {
            0
        } else {
            (self.next() as usize) % n
        }
    }

    /// A nibble: the low four bits of the next state.
    pub fn next_u4(&mut self) -> (r: u8)
        ensures
            final(self)@ == lcg_step(old(self)@),
            r == (lcg_step(old(self)@) & 0x0f) as u8,
    {
        (self.next() & 0x0f) as u8
    }

    /// A coin: whether the next state is even.
    pub fn next_bit(&mut self) -> (r: bool)
        ensures
            final(self)@ == lcg_step(old(self)@),
            r == (lcg_step(old(self)@) & 1 == 0),
    {
        (self.next() & 1) == 0
    }
}

/// `src` with one nibble of byte `pos` replaced: the high one when `upper`.
pub open spec fn replace_nibble(src: Seq<u8>, pos: int, upper: bool, nib: u8) -> Seq<u8> {
    if upper {
        src.update(pos, (src[pos] & 0x0fu8) | ((nib << 4u8) as u8))
    } else {
        src.update(pos, (src[pos] & 0xf0u8) | nib)
    }
}

/// A random single-nibble mutation of `src`: draws the byte position, then
/// whether to replace the high nibble, then the new nibble, and returns
/// (mutated bytes, position, high nibble?, new nibble).
pub fn nibble_mutate_rng(rng: &mut Lcg64, src: &[u8]) -> (r: (Vec<u8>, usize, bool, u8))
    requires
        src@.len() > 0,
    ensures
        final(rng)@ == lcg_iter(old(rng)@, 3),
        r.1 == (lcg_iter(old(rng)@, 1) as usize) % (src@.len() as usize),
        r.2 == (lcg_iter(old(rng)@, 2) & 1 == 0),
        r.3 == (lcg_iter(old(rng)@, 3) & 0x0f) as u8,
        r.3 < 16,
        r.0@ == replace_nibble(src@, r.1 as int, r.2, r.3),
{
    let ghost s0 = rng@;
    let pos = rng.next_usize(src.len());
    let upper = rng.next_bit();
    let nib = rng.next_u4();
    proof {
        assert(lcg_iter(s0, 1) == lcg_step(lcg_iter(s0, 0)));
        assert(lcg_iter(s0, 2) == lcg_step(lcg_iter(s0, 1)));
        assert(lcg_iter(s0, 3) == lcg_step(lcg_iter(s0, 2)));
        let x = lcg_iter(s0, 3);
        assert(nib == (x & 0x0f) as u8);
        assert(((x & 0x0f) as u8) < 16) by (bit_vector);
    }
    let mut out = copy_bytes(src);
    if upper {
        let v = (out[pos] & 0x0f) | (nib << 4);
        out.set(pos, v);
    } else {
        let v = (out[pos] & 0xf0) | nib;
        out.set(pos, v);
    }
    (out, pos, upper, nib)
}

// ── phase-1 candidates ──────────────────────────────────────────────────────

/// The first `max` entries of `s` (all of them when it is shorter).
pub open spec fn take_at_most<T>(s: Seq<T>, max: int) -> Seq<T> {
    if max < s.len() {
        s.take(max)
    } else {
        s
    }
}

/// Nibble positions `i < n` of `cur` whose nibble differs from the sign nibble of
/// `gold[(i + k) mod |gold|]`, each with that nibble, in position order.
pub open spec fn bin_diffs(cur: Seq<u8>, gold: Seq<i32>, k: int, n: int) -> Seq<(usize, u8)>
    decreases n,
{
    if n <= 0 {
        seq![]
    } else {
        let prev = bin_diffs(cur, gold, k, n - 1);
        let i = n - 1;
        let g = if gold[(i + k) % (gold.len() as int)] >= 0 {
            8u8
        } else {
            0u8
        };
        if g != nibble_at(cur, i) {
            prev.push((i as usize, g))
        } else {
            prev
        }
    }
}

/// The phase-1 candidates of the binary field: the first `max` of [`bin_diffs`]
/// over all nibbles of `cur`.
pub open spec fn bin_candidates(cur: Seq<u8>, gold: Seq<i32>, k: int, max: int) -> Seq<(usize, u8)> {
    take_at_most(bin_diffs(cur, gold, k, 2 * cur.len() as int), max)
}

/// Nibble positions `i < n` of `cur` whose nibble differs from `gold[(i + k) mod |gold|]`,
/// each with that nibble and the size of the difference, in position order.
pub open spec fn nib_diffs(cur: Seq<u8>, gold: Seq<u8>, k: int, n: int) -> Seq<(usize, u8, u8)>
    decreases n,
{
    if n <= 0 {
        seq![]
    } else {
        let prev = nib_diffs(cur, gold, k, n - 1);
        let i = n - 1;
        let g = gold[(i + k) % (gold.len() as int)];
        let b = nibble_at(cur, i);
        if g != b {
            prev.push((i as usize, g, (if g >= b { g - b } else { b - g }) as u8))
        } else {
            prev
        }
    }
}

/// The entries of `e` whose difference is `d`, in order.
pub open spec fn with_diff(e: Seq<(usize, u8, u8)>, d: int) -> Seq<(usize, u8, u8)>
    decreases e.len(),
{
    if e.len() == 0 {
        seq![]
    } else {
        let prev = with_diff(e.drop_last(), d);
        if e.last().2 == d {
            prev.push(e.last())
        } else {
            prev
        }
    }
}

/// The entries of `e` with differences `255, 254, ..., 256 - count`, each group in
/// the order it had in `e`.
pub open spec fn by_diff_desc(e: Seq<(usize, u8, u8)>, count: int) -> Seq<(usize, u8, u8)>
    decreases count,
{
    if count <= 0 {
        seq![]
    } else {
        by_diff_desc(e, count - 1) + with_diff(e, 256 - count)
    }
}

/// Drops the differences.
pub open spec fn strip_diffs(e: Seq<(usize, u8, u8)>) -> Seq<(usize, u8)> {
    e.map_values(|t: (usize, u8, u8)| (t.0, t.1))
}

/// The phase-1 candidates of the nibble field: the differing nibbles sorted by
/// descending difference (a stable sort, so equal differences keep position
/// order), cut to `max`, without the differences.
pub open spec fn nib_candidates(cur: Seq<u8>, gold: Seq<u8>, k: int, max: int) -> Seq<(usize, u8)> {
    strip_diffs(take_at_most(by_diff_desc(nib_diffs(cur, gold, k, 2 * cur.len() as int), 256), max))
}

/// At most one binary edit per nibble position.
pub proof fn lemma_bin_diffs_len(cur: Seq<u8>, gold: Seq<i32>, k: int, n: int)
    requires
        n >= 0,
    ensures
        bin_diffs(cur, gold, k, n).len() <= n,
    decreases n,
{
    if n > 0 {
        lemma_bin_diffs_len(cur, gold, k, n - 1);
    }
}

/// At most one nibble edit per nibble position.
pub proof fn lemma_nib_diffs_len(cur: Seq<u8>, gold: Seq<u8>, k: int, n: int)
    requires
        n >= 0,
    ensures
        nib_diffs(cur, gold, k, n).len() <= n,
    decreases n,
{
    if n > 0 {
        lemma_nib_diffs_len(cur, gold, k, n - 1);
    }
}

/// Appending an entry adds it to the group of its difference only.
proof fn lemma_by_diff_push(e: Seq<(usize, u8, u8)>, x: (usize, u8, u8), count: int)
    requires
        0 <= count,
    ensures
        by_diff_desc(e.push(x), count).len() == by_diff_desc(e, count).len() + (if 256 - count <= x.2 {
            1int
        } else {
            0int
        }),
    decreases count,
{
    if count > 0 {
        lemma_by_diff_push(e, x, count - 1);
        assert(e.push(x).drop_last() =~= e);
    }
}

/// Sorting by difference keeps every entry: the result is as long as the input.
pub proof fn lemma_by_diff_len(e: Seq<(usize, u8, u8)>)
    ensures
        by_diff_desc(e, 256).len() == e.len(),
    decreases e.len(),
{
    if e.len() > 0 {
        lemma_by_diff_len(e.drop_last());
        lemma_by_diff_push(e.drop_last(), e.last(), 256);
        assert(e.drop_last().push(e.last()) =~= e);
    } else {
        lemma_by_diff_empty(e, 256);
    }
}

/// Sorting nothing gives nothing.
proof fn lemma_by_diff_empty(e: Seq<(usize, u8, u8)>, count: int)
    requires
        e.len() == 0,
        count >= 0,
    ensures
        by_diff_desc(e, count).len() == 0,
    decreases count,
{
    if count > 0 {
        lemma_by_diff_empty(e, count - 1);
    }
}

/// The candidates of the binary field (see [`bin_candidates`]).
pub(crate) fn bin_p1_candidates(cur: &[u8], gold_enc: &[i32], k: usize, max: usize) -> (r: Vec<(usize, u8)>)
    requires
        cur@.len() > 0 ==> gold_enc@.len() > 0,
        2 * cur@.len() + k <= usize::MAX,
    ensures
        r@ == bin_candidates(cur@, gold_enc@, k as int, max as int),
        r@.len() <= 2 * cur@.len(),
        r@.len() <= max,
{
    proof {
        lemma_bin_diffs_len(cur@, gold_enc@, k as int, 2 * cur@.len() as int);
    }
    let n = cur.len() * 2;
    let m = gold_enc.len();
    let mut cands: Vec<(usize, u8)> = Vec::new();
    for i in 0..n
        invariant
            n == 2 * cur@.len(),
            m == gold_enc@.len(),
            n > 0 ==> m > 0,
            n + k <= usize::MAX,
            cands@ == bin_diffs(cur@, gold_enc@, k as int, i as int),
    {
        let gold_sign = gold_enc[(i + k) % m];
        let gold_nib = bin_to_nib(gold_sign);
        let buggy_nib = if i % 2 == 0 {
            cur[i / 2] >> 4
        } else {
            cur[i / 2] & 0x0f
        };
        if gold_nib != buggy_nib {
            cands.push((i, gold_nib));
        }
    }
    if max < cands.len() {
        cands.truncate(max);
    }
    cands
}

/// The candidates of the nibble field (see [`nib_candidates`]).
pub(crate) fn nib_p1_candidates(cur: &[u8], gold_enc: &[u8], k: usize, max: usize) -> (r: Vec<(usize, u8)>)
    requires
        cur@.len() > 0 ==> gold_enc@.len() > 0,
        2 * cur@.len() + k <= usize::MAX,
    ensures
        r@ == nib_candidates(cur@, gold_enc@, k as int, max as int),
        r@.len() <= 2 * cur@.len(),
        r@.len() <= max,
{
    proof {
        lemma_nib_diffs_len(cur@, gold_enc@, k as int, 2 * cur@.len() as int);
        lemma_by_diff_len(nib_diffs(cur@, gold_enc@, k as int, 2 * cur@.len() as int));
    }
    let cur_nibs = to_nib_seq(cur);
    let n = cur_nibs.len();
    let m = gold_enc.len();
    let mut cands: Vec<(usize, u8, u8)> = Vec::new();
    for i in 0..n
        invariant
            cur_nibs@ == nibbles(cur@),
            n == 2 * cur@.len(),
            m == gold_enc@.len(),
            n > 0 ==> m > 0,
            n + k <= usize::MAX,
            cands@ == nib_diffs(cur@, gold_enc@, k as int, i as int),
    {
        let gold_nib = gold_enc[(i + k) % m];
        let buggy_nib = cur_nibs[i];
        if gold_nib != buggy_nib {
            let diff = if gold_nib >= buggy_nib {
                gold_nib - buggy_nib
            } else {
                buggy_nib - gold_nib
            };
            cands.push((i, gold_nib, diff));
        }
    }
    let mut sorted: Vec<(usize, u8, u8)> = Vec::new();
    for c in 0..256usize
        invariant
            sorted@ == by_diff_desc(cands@, c as int),
    {
        let d = (255 - c) as u8;
        let mut j: usize = 0;
        let ghost before = sorted@;
        while j < cands.len()
            invariant
                j <= cands@.len(),
                d == 255 - c,
                sorted@ == before + with_diff(cands@.take(j as int), d as int),
            decreases cands@.len() - j,
        {
            assert(cands@.take(j + 1).drop_last() =~= cands@.take(j as int));
            if cands[j].2 == d {
                sorted.push(cands[j]);
            }
            j = j + 1;
        }
        assert(cands@.take(cands@.len() as int) =~= cands@);
    }
    if max < sorted.len() {
        sorted.truncate(max);
    }
    let mut out: Vec<(usize, u8)> = Vec::new();
    for t in 0..sorted.len()
        invariant
            out@ == strip_diffs(sorted@.take(t as int)),
    {
        out.push((sorted[t].0, sorted[t].1));
        assert(strip_diffs(sorted@.take(t + 1)) =~= strip_diffs(sorted@.take(t as int)).push((sorted@[t as int].0, sorted@[t as int].1)));
    }
    assert(sorted@.take(sorted@.len() as int) =~= sorted@);
    out
}

// ── GOLD phase encoding ─────────────────────────────────────────────────────

/// Some of the first `k` gram indices is mapped by `phi` to phase `j`.
pub open spec fn phase_hit(grams: Seq<usize>, phi: Seq<usize>, k: int, j: int) -> bool {
    exists|t: int| 0 <= t < k && grams[t] < phi.len() && #[trigger] phi[grams[t] as int] == j
}

/// The GOLD phase encoding of a set of gram indices: position `j` holds the GOLD
/// value `gold_g[j]` when some gram index is mapped to phase `j` by `phi`, and 0
/// otherwise; indices past the end of `phi` are skipped.
pub fn gold_encode_signs(gram_indices: &[usize], phi: &[usize], gold_g: &[i32]) -> (r: Vec<i32>)
    requires
        forall|t: int|
            0 <= t < gram_indices@.len() && gram_indices@[t] < phi@.len() ==> #[trigger] phi@[gram_indices@[t] as int]
                < gold_g@.len(),
    ensures
        r@.len() == gold_g@.len(),
        forall|j: int|
            0 <= j < gold_g@.len() ==> #[trigger] r@[j] == (if phase_hit(
                gram_indices@,
                phi@,
                gram_indices@.len() as int,
                j,
            ) {
                gold_g@[j]
            } else {
                0
            }),
{
    let l = gold_g.len();
    let mut d: Vec<i32> = Vec::new();
    for j in 0..l
        invariant
            d@ == Seq::new(j as nat, |q: int| 0i32),
    {
        d.push(0);
        assert(d@ =~= Seq::new((j + 1) as nat, |q: int| 0i32));
    }
    for k in 0..gram_indices.len()
        invariant
            l == gold_g@.len(),
            d@.len() == l,
            forall|t: int|
                0 <= t < gram_indices@.len() && gram_indices@[t] < phi@.len() ==> #[trigger] phi@[gram_indices@[t] as int]
                    < gold_g@.len(),
            forall|j: int|
                0 <= j < l ==> #[trigger] d@[j] == (if phase_hit(gram_indices@, phi@, k as int, j) {
                    gold_g@[j]
                } else {
                    0
                }),
    {
        let i = gram_indices[k];
        if i < phi.len() {
            let j = phi[i];
            assert(phi@[gram_indices@[k as int] as int] < gold_g@.len());
            d.set(j, gold_g[j]);
        }
        assert forall|q: int| 0 <= q < l implies #[trigger] d@[q] == (if phase_hit(
            gram_indices@,
            phi@,
            k + 1,
            q,
        ) {
            gold_g@[q]
        } else {
            0
        }) by {
            if phase_hit(gram_indices@, phi@, k + 1, q) && !phase_hit(gram_indices@, phi@, k as int, q) {
                let t = choose|t: int| 0 <= t < k + 1 && gram_indices@[t] < phi@.len() && #[trigger] phi@[gram_indices@[t] as int] == q;
                assert(t == k);
            }
            if phase_hit(gram_indices@, phi@, k as int, q) {
                let t = choose|t: int| 0 <= t < k && gram_indices@[t] < phi@.len() && #[trigger] phi@[gram_indices@[t] as int] == q;
                assert(phase_hit(gram_indices@, phi@, k + 1, q));
            }
            if i < phi@.len() && phi@[i as int] == q {
                assert(phi@[gram_indices@[k as int] as int] == q);
                assert(phase_hit(gram_indices@, phi@, k + 1, q));
            }
        }
    }
    d
}

/// A list without repeats that holds every value below `n` is at least `n` long.
proof fn lemma_covering_list_len(s: Seq<usize>, n: int)
    requires
        0 <= n <= usize::MAX + 1,
        forall|u: int, v: int| 0 <= u < v < s.len() ==> s[u] != s[v],
        forall|j: int| 0 <= j < n ==> #[trigger] s.contains(j as usize),
    ensures
        s.len() >= n,
{
    let si = s.map_values(|x: usize| x as int);
    assert forall|u: int, v: int| 0 <= u < si.len() && 0 <= v < si.len() && u != v implies si[u]
        != si[v] by {
        if u < v {
            assert(s[u] != s[v]);
        } else {
            assert(s[v] != s[u]);
        }
    }
    assert(si.no_duplicates());
    assert forall|j: int| vstd::set_lib::set_int_range(0, n).contains(j) implies si.to_set().contains(j) by {
        assert(s.contains(j as usize));
        let u = choose|u: int| 0 <= u < s.len() && s[u] == j as usize;
        assert(si[u] == j);
    }
    vstd::seq_lib::seq_to_set_is_finite(si);
    si.unique_seq_to_set();
    vstd::set_lib::lemma_int_range(0, n);
    vstd::set_lib::lemma_len_subset(vstd::set_lib::set_int_range(0, n), si.to_set());
}

} // verus!

verus! {

// ── maximal period of x^10 + x^3 + 1 ───────────────────────────────────────

/// One LFSR step of the tap polynomial 0x09 (`x^10 + x^3 + 1`): the feedback bit
/// is bit 9 xor bit 6 of the state.
pub proof fn lemma_step_09(s: nat)
    requires
        s < 1024,
    ensures
        lfsr_step(0x09, s) == 2 * (s % 512) + (s / 512 + (s / 64) % 2) % 2,
{
    reveal_with_fuel(reverse_bits, 11);
    reveal_with_fuel(bit_weight, 10);
    assert(feedback_mask(0x09) == 576);
    reveal_with_fuel(masked_parity, 11);
    let s1 = s / 2;
    let s2 = s1 / 2;
    let s3 = s2 / 2;
    let s4 = s3 / 2;
    let s5 = s4 / 2;
    let s6 = s5 / 2;
    let s7 = s6 / 2;
    let s8 = s7 / 2;
    let s9 = s8 / 2;
    vstd::arithmetic::div_mod::lemma_div_denominator(s as int, 2, 2);
    vstd::arithmetic::div_mod::lemma_div_denominator(s as int, 4, 2);
    vstd::arithmetic::div_mod::lemma_div_denominator(s as int, 8, 2);
    vstd::arithmetic::div_mod::lemma_div_denominator(s as int, 16, 2);
    vstd::arithmetic::div_mod::lemma_div_denominator(s as int, 32, 2);
    vstd::arithmetic::div_mod::lemma_div_denominator(s as int, 64, 2);
    vstd::arithmetic::div_mod::lemma_div_denominator(s as int, 128, 2);
    vstd::arithmetic::div_mod::lemma_div_denominator(s as int, 256, 2);
    assert(s6 == s / 64);
    assert(s9 == s / 512);
    assert(masked_parity(s, 576, 10) == ((s6 % 2 == 1) != (s9 % 2 == 1)));
}

/// Every LFSR state is a 10-bit value.
pub proof fn lemma_lfsr_state_bound(tap: u32, k: nat)
    ensures
        lfsr_state(tap, k) < 1024,
{
}

/// The number of +1 among the first `n` outputs of the m-sequence of `tap`.
pub open spec fn m_seq_ones(tap: u32, n: nat) -> nat
    decreases n,
{
    if n == 0 {
        0
    } else {
        m_seq_ones(tap, (n - 1) as nat) + (if m_seq_at(tap, (n - 1) as nat) == 1 {
            1nat
        } else {
            0nat
        })
    }
}

/// No state after steps 1 to `k` is the start state 1.
pub open spec fn avoids_start(tap: u32, k: nat) -> bool {
    forall|j: nat| 1 <= j <= k ==> #[trigger] lfsr_state(tap, j) != 1
}

/// Step `k` of the walk of 0x09, from state `a` to state `b`, with `c` outputs of +1 before it.
/// The walk below is checked with one such step per state of the first period.
proof fn lemma_visit_09(k: nat, a: nat, b: nat, c: nat)
    requires
        lfsr_state(0x09, k) == a,
        m_seq_ones(0x09, k) == c,
        avoids_start(0x09, k),
        a < 1024,
        b == 2 * (a % 512) + (a / 512 + (a / 64) % 2) % 2,
        b != 1,
    ensures
        lfsr_state(0x09, k + 1) == b,
        m_seq_ones(0x09, k + 1) == c + (if a >= 512 {
            1nat
        } else {
            0nat
        }),
        avoids_start(0x09, k + 1),
{
    lemma_step_09(a);
    assert(lfsr_state(0x09, k + 1) == lfsr_step(0x09, a));
    assert forall|j: nat| 1 <= j <= k + 1 implies #[trigger] lfsr_state(0x09, j) != 1 by {
        if j <= k {
            assert(lfsr_state(0x09, j) != 1);
        }
    }
}

/// The walk of 0x09 from state 1 up to step 128, state by state.
proof fn lemma_walk_09_to_128()
    ensures
        lfsr_state(0x09, 128) == 547,
        m_seq_ones(0x09, 128) == 52,
        avoids_start(0x09, 128),
{
    assert(avoids_start(0x09, 0));
    assert(m_seq_ones(0x09, 0) == 0);
    lemma_visit_09(0, 1, 2, 0); lemma_visit_09(1, 2, 4, 0); lemma_visit_09(2, 4, 8, 0); lemma_visit_09(3, 8, 16, 0);
    lemma_visit_09(4, 16, 32, 0); lemma_visit_09(5, 32, 64, 0); lemma_visit_09(6, 64, 129, 0); lemma_visit_09(7, 129, 258, 0);
    lemma_visit_09(8, 258, 516, 0); lemma_visit_09(9, 516, 9, 0); lemma_visit_09(10, 9, 18, 1); lemma_visit_09(11, 18, 36, 1);
    lemma_visit_09(12, 36, 72, 1); lemma_visit_09(13, 72, 145, 1); lemma_visit_09(14, 145, 290, 1); lemma_visit_09(15, 290, 580, 1);
    lemma_visit_09(16, 580, 136, 1); lemma_visit_09(17, 136, 272, 2); lemma_visit_09(18, 272, 544, 2); lemma_visit_09(19, 544, 65, 2);
    lemma_visit_09(20, 65, 131, 3); lemma_visit_09(21, 131, 262, 3); lemma_visit_09(22, 262, 524, 3); lemma_visit_09(23, 524, 25, 3);
    lemma_visit_09(24, 25, 50, 4); lemma_visit_09(25, 50, 100, 4); lemma_visit_09(26, 100, 201, 4); lemma_visit_09(27, 201, 403, 4);
    lemma_visit_09(28, 403, 806, 4); lemma_visit_09(29, 806, 589, 4); lemma_visit_09(30, 589, 154, 5); lemma_visit_09(31, 154, 308, 6);
    lemma_visit_09(32, 308, 616, 6); lemma_visit_09(33, 616, 208, 6); lemma_visit_09(34, 208, 417, 7); lemma_visit_09(35, 417, 834, 7);
    lemma_visit_09(36, 834, 644, 7); lemma_visit_09(37, 644, 265, 8); lemma_visit_09(38, 265, 530, 9); lemma_visit_09(39, 530, 37, 9);
    lemma_visit_09(40, 37, 74, 10); lemma_visit_09(41, 74, 149, 10); lemma_visit_09(42, 149, 298, 10); lemma_visit_09(43, 298, 596, 10);
    lemma_visit_09(44, 596, 168, 10); lemma_visit_09(45, 168, 336, 11); lemma_visit_09(46, 336, 673, 11); lemma_visit_09(47, 673, 323, 11);
    lemma_visit_09(48, 323, 647, 12); lemma_visit_09(49, 647, 271, 12); lemma_visit_09(50, 271, 542, 13); lemma_visit_09(51, 542, 61, 13);
    lemma_visit_09(52, 61, 122, 14); lemma_visit_09(53, 122, 245, 14); lemma_visit_09(54, 245, 491, 14); lemma_visit_09(55, 491, 983, 14);
    lemma_visit_09(56, 983, 942, 14); lemma_visit_09(57, 942, 861, 15); lemma_visit_09(58, 861, 698, 16); lemma_visit_09(59, 698, 373, 17);
    lemma_visit_09(60, 373, 747, 18); lemma_visit_09(61, 747, 470, 18); lemma_visit_09(62, 470, 941, 19); lemma_visit_09(63, 941, 859, 19);
    lemma_visit_09(64, 859, 694, 20); lemma_visit_09(65, 694, 365, 21); lemma_visit_09(66, 365, 731, 22); lemma_visit_09(67, 731, 438, 22);
    lemma_visit_09(68, 438, 876, 23); lemma_visit_09(69, 876, 728, 23); lemma_visit_09(70, 728, 432, 24); lemma_visit_09(71, 432, 864, 25);
    lemma_visit_09(72, 864, 704, 25); lemma_visit_09(73, 704, 384, 26); lemma_visit_09(74, 384, 768, 27); lemma_visit_09(75, 768, 513, 27);
    lemma_visit_09(76, 513, 3, 28); lemma_visit_09(77, 3, 6, 29); lemma_visit_09(78, 6, 12, 29); lemma_visit_09(79, 12, 24, 29);
    lemma_visit_09(80, 24, 48, 29); lemma_visit_09(81, 48, 96, 29); lemma_visit_09(82, 96, 193, 29); lemma_visit_09(83, 193, 387, 29);
    lemma_visit_09(84, 387, 774, 29); lemma_visit_09(85, 774, 525, 29); lemma_visit_09(86, 525, 27, 30); lemma_visit_09(87, 27, 54, 31);
    lemma_visit_09(88, 54, 108, 31); lemma_visit_09(89, 108, 217, 31); lemma_visit_09(90, 217, 435, 31); lemma_visit_09(91, 435, 870, 31);
    lemma_visit_09(92, 870, 716, 31); lemma_visit_09(93, 716, 408, 32); lemma_visit_09(94, 408, 816, 33); lemma_visit_09(95, 816, 609, 33);
    lemma_visit_09(96, 609, 194, 34); lemma_visit_09(97, 194, 389, 35); lemma_visit_09(98, 389, 778, 35); lemma_visit_09(99, 778, 533, 35);
    lemma_visit_09(100, 533, 43, 36); lemma_visit_09(101, 43, 86, 37); lemma_visit_09(102, 86, 173, 37); lemma_visit_09(103, 173, 346, 37);
    lemma_visit_09(104, 346, 693, 37); lemma_visit_09(105, 693, 363, 37); lemma_visit_09(106, 363, 727, 38); lemma_visit_09(107, 727, 430, 38);
    lemma_visit_09(108, 430, 860, 39); lemma_visit_09(109, 860, 696, 39); lemma_visit_09(110, 696, 369, 40); lemma_visit_09(111, 369, 739, 41);
    lemma_visit_09(112, 739, 454, 41); lemma_visit_09(113, 454, 909, 42); lemma_visit_09(114, 909, 795, 42); lemma_visit_09(115, 795, 567, 43);
    lemma_visit_09(116, 567, 111, 44); lemma_visit_09(117, 111, 223, 45); lemma_visit_09(118, 223, 447, 45); lemma_visit_09(119, 447, 894, 45);
    lemma_visit_09(120, 894, 764, 45); lemma_visit_09(121, 764, 504, 46); lemma_visit_09(122, 504, 1009, 47); lemma_visit_09(123, 1009, 994, 47);
    lemma_visit_09(124, 994, 964, 48); lemma_visit_09(125, 964, 904, 49); lemma_visit_09(126, 904, 785, 50); lemma_visit_09(127, 785, 547, 51);
}

/// The walk of 0x09 from state 1 up to step 256, state by state.
proof fn lemma_walk_09_to_256()
    ensures
        lfsr_state(0x09, 256) == 268,
        m_seq_ones(0x09, 256) == 115,
        avoids_start(0x09, 256),
{
    lemma_walk_09_to_128();
    lemma_visit_09(128, 547, 71, 52); lemma_visit_09(129, 71, 143, 53); lemma_visit_09(130, 143, 286, 53); lemma_visit_09(131, 286, 572, 53);
    lemma_visit_09(132, 572, 121, 53); lemma_visit_09(133, 121, 243, 54); lemma_visit_09(134, 243, 487, 54); lemma_visit_09(135, 487, 975, 54);
    lemma_visit_09(136, 975, 926, 54); lemma_visit_09(137, 926, 829, 55); lemma_visit_09(138, 829, 635, 56); lemma_visit_09(139, 635, 246, 57);
    lemma_visit_09(140, 246, 493, 58); lemma_visit_09(141, 493, 987, 58); lemma_visit_09(142, 987, 950, 58); lemma_visit_09(143, 950, 877, 59);
    lemma_visit_09(144, 877, 730, 60); lemma_visit_09(145, 730, 436, 61); lemma_visit_09(146, 436, 872, 62); lemma_visit_09(147, 872, 720, 62);
    lemma_visit_09(148, 720, 416, 63); lemma_visit_09(149, 416, 832, 64); lemma_visit_09(150, 832, 640, 64); lemma_visit_09(151, 640, 257, 65);
    lemma_visit_09(152, 257, 514, 66); lemma_visit_09(153, 514, 5, 66); lemma_visit_09(154, 5, 10, 67); lemma_visit_09(155, 10, 20, 67);
    lemma_visit_09(156, 20, 40, 67); lemma_visit_09(157, 40, 80, 67); lemma_visit_09(158, 80, 161, 67); lemma_visit_09(159, 161, 322, 67);
    lemma_visit_09(160, 322, 645, 67); lemma_visit_09(161, 645, 267, 67); lemma_visit_09(162, 267, 534, 68); lemma_visit_09(163, 534, 45, 68);
    lemma_visit_09(164, 45, 90, 69); lemma_visit_09(165, 90, 181, 69); lemma_visit_09(166, 181, 362, 69); lemma_visit_09(167, 362, 725, 69);
    lemma_visit_09(168, 725, 426, 69); lemma_visit_09(169, 426, 852, 70); lemma_visit_09(170, 852, 680, 70); lemma_visit_09(171, 680, 337, 71);
    lemma_visit_09(172, 337, 675, 72); lemma_visit_09(173, 675, 327, 72); lemma_visit_09(174, 327, 655, 73); lemma_visit_09(175, 655, 287, 73);
    lemma_visit_09(176, 287, 574, 74); lemma_visit_09(177, 574, 125, 74); lemma_visit_09(178, 125, 251, 75); lemma_visit_09(179, 251, 503, 75);
    lemma_visit_09(180, 503, 1007, 75); lemma_visit_09(181, 1007, 990, 75); lemma_visit_09(182, 990, 956, 76); lemma_visit_09(183, 956, 889, 77);
    lemma_visit_09(184, 889, 754, 78); lemma_visit_09(185, 754, 484, 79); lemma_visit_09(186, 484, 969, 80); lemma_visit_09(187, 969, 914, 80);
    lemma_visit_09(188, 914, 805, 81); lemma_visit_09(189, 805, 587, 82); lemma_visit_09(190, 587, 150, 83); lemma_visit_09(191, 150, 300, 84);
    lemma_visit_09(192, 300, 600, 84); lemma_visit_09(193, 600, 176, 84); lemma_visit_09(194, 176, 352, 85); lemma_visit_09(195, 352, 705, 85);
    lemma_visit_09(196, 705, 386, 85); lemma_visit_09(197, 386, 772, 86); lemma_visit_09(198, 772, 521, 86); lemma_visit_09(199, 521, 19, 87);
    lemma_visit_09(200, 19, 38, 88); lemma_visit_09(201, 38, 76, 88); lemma_visit_09(202, 76, 153, 88); lemma_visit_09(203, 153, 306, 88);
    lemma_visit_09(204, 306, 612, 88); lemma_visit_09(205, 612, 200, 88); lemma_visit_09(206, 200, 401, 89); lemma_visit_09(207, 401, 802, 89);
    lemma_visit_09(208, 802, 581, 89); lemma_visit_09(209, 581, 138, 90); lemma_visit_09(210, 138, 276, 91); lemma_visit_09(211, 276, 552, 91);
    lemma_visit_09(212, 552, 81, 91); lemma_visit_09(213, 81, 163, 92); lemma_visit_09(214, 163, 326, 92); lemma_visit_09(215, 326, 653, 92);
    lemma_visit_09(216, 653, 283, 92); lemma_visit_09(217, 283, 566, 93); lemma_visit_09(218, 566, 109, 93); lemma_visit_09(219, 109, 219, 94);
    lemma_visit_09(220, 219, 439, 94); lemma_visit_09(221, 439, 878, 94); lemma_visit_09(222, 878, 732, 94); lemma_visit_09(223, 732, 440, 95);
    lemma_visit_09(224, 440, 880, 96); lemma_visit_09(225, 880, 736, 96); lemma_visit_09(226, 736, 448, 97); lemma_visit_09(227, 448, 897, 98);
    lemma_visit_09(228, 897, 771, 98); lemma_visit_09(229, 771, 519, 99); lemma_visit_09(230, 519, 15, 100); lemma_visit_09(231, 15, 30, 101);
    lemma_visit_09(232, 30, 60, 101); lemma_visit_09(233, 60, 120, 101); lemma_visit_09(234, 120, 241, 101); lemma_visit_09(235, 241, 483, 101);
    lemma_visit_09(236, 483, 967, 101); lemma_visit_09(237, 967, 910, 101); lemma_visit_09(238, 910, 797, 102); lemma_visit_09(239, 797, 571, 103);
    lemma_visit_09(240, 571, 119, 104); lemma_visit_09(241, 119, 239, 105); lemma_visit_09(242, 239, 479, 105); lemma_visit_09(243, 479, 959, 105);
    lemma_visit_09(244, 959, 895, 105); lemma_visit_09(245, 895, 766, 106); lemma_visit_09(246, 766, 508, 107); lemma_visit_09(247, 508, 1017, 108);
    lemma_visit_09(248, 1017, 1010, 108); lemma_visit_09(249, 1010, 996, 109); lemma_visit_09(250, 996, 968, 110); lemma_visit_09(251, 968, 912, 111);
    lemma_visit_09(252, 912, 801, 112); lemma_visit_09(253, 801, 579, 113); lemma_visit_09(254, 579, 134, 114); lemma_visit_09(255, 134, 268, 115);
}

/// The walk of 0x09 from state 1 up to step 384, state by state.
proof fn lemma_walk_09_to_384()
    ensures
        lfsr_state(0x09, 384) == 537,
        m_seq_ones(0x09, 384) == 176,
        avoids_start(0x09, 384),
{
    lemma_walk_09_to_256();
    lemma_visit_09(256, 268, 536, 115); lemma_visit_09(257, 536, 49, 115); lemma_visit_09(258, 49, 98, 116); lemma_visit_09(259, 98, 197, 116);
    lemma_visit_09(260, 197, 395, 116); lemma_visit_09(261, 395, 790, 116); lemma_visit_09(262, 790, 557, 116); lemma_visit_09(263, 557, 91, 117);
    lemma_visit_09(264, 91, 183, 118); lemma_visit_09(265, 183, 366, 118); lemma_visit_09(266, 366, 733, 118); lemma_visit_09(267, 733, 442, 118);
    lemma_visit_09(268, 442, 884, 119); lemma_visit_09(269, 884, 744, 119); lemma_visit_09(270, 744, 464, 120); lemma_visit_09(271, 464, 929, 121);
    lemma_visit_09(272, 929, 835, 121); lemma_visit_09(273, 835, 646, 122); lemma_visit_09(274, 646, 269, 123); lemma_visit_09(275, 269, 538, 124);
    lemma_visit_09(276, 538, 53, 124); lemma_visit_09(277, 53, 106, 125); lemma_visit_09(278, 106, 213, 125); lemma_visit_09(279, 213, 427, 125);
    lemma_visit_09(280, 427, 854, 125); lemma_visit_09(281, 854, 684, 125); lemma_visit_09(282, 684, 345, 126); lemma_visit_09(283, 345, 691, 127);
    lemma_visit_09(284, 691, 359, 127); lemma_visit_09(285, 359, 719, 128); lemma_visit_09(286, 719, 414, 128); lemma_visit_09(287, 414, 828, 129);
    lemma_visit_09(288, 828, 633, 129); lemma_visit_09(289, 633, 242, 130); lemma_visit_09(290, 242, 485, 131); lemma_visit_09(291, 485, 971, 131);
    lemma_visit_09(292, 971, 918, 131); lemma_visit_09(293, 918, 813, 132); lemma_visit_09(294, 813, 603, 133); lemma_visit_09(295, 603, 182, 134);
    lemma_visit_09(296, 182, 364, 135); lemma_visit_09(297, 364, 729, 135); lemma_visit_09(298, 729, 434, 135); lemma_visit_09(299, 434, 868, 136);
    lemma_visit_09(300, 868, 712, 136); lemma_visit_09(301, 712, 400, 137); lemma_visit_09(302, 400, 800, 138); lemma_visit_09(303, 800, 577, 138);
    lemma_visit_09(304, 577, 130, 139); lemma_visit_09(305, 130, 260, 140); lemma_visit_09(306, 260, 520, 140); lemma_visit_09(307, 520, 17, 140);
    lemma_visit_09(308, 17, 34, 141); lemma_visit_09(309, 34, 68, 141); lemma_visit_09(310, 68, 137, 141); lemma_visit_09(311, 137, 274, 141);
    lemma_visit_09(312, 274, 548, 141); lemma_visit_09(313, 548, 73, 141); lemma_visit_09(314, 73, 147, 142); lemma_visit_09(315, 147, 294, 142);
    lemma_visit_09(316, 294, 588, 142); lemma_visit_09(317, 588, 152, 142); lemma_visit_09(318, 152, 304, 143); lemma_visit_09(319, 304, 608, 143);
    lemma_visit_09(320, 608, 192, 143); lemma_visit_09(321, 192, 385, 144); lemma_visit_09(322, 385, 770, 144); lemma_visit_09(323, 770, 517, 144);
    lemma_visit_09(324, 517, 11, 145); lemma_visit_09(325, 11, 22, 146); lemma_visit_09(326, 22, 44, 146); lemma_visit_09(327, 44, 88, 146);
    lemma_visit_09(328, 88, 177, 146); lemma_visit_09(329, 177, 354, 146); lemma_visit_09(330, 354, 709, 146); lemma_visit_09(331, 709, 394, 146);
    lemma_visit_09(332, 394, 788, 147); lemma_visit_09(333, 788, 553, 147); lemma_visit_09(334, 553, 83, 148); lemma_visit_09(335, 83, 167, 149);
    lemma_visit_09(336, 167, 334, 149); lemma_visit_09(337, 334, 669, 149); lemma_visit_09(338, 669, 315, 149); lemma_visit_09(339, 315, 630, 150);
    lemma_visit_09(340, 630, 236, 150); lemma_visit_09(341, 236, 473, 151); lemma_visit_09(342, 473, 947, 151); lemma_visit_09(343, 947, 871, 151);
    lemma_visit_09(344, 871, 718, 152); lemma_visit_09(345, 718, 412, 153); lemma_visit_09(346, 412, 824, 154); lemma_visit_09(347, 824, 625, 154);
    lemma_visit_09(348, 625, 226, 155); lemma_visit_09(349, 226, 453, 156); lemma_visit_09(350, 453, 907, 156); lemma_visit_09(351, 907, 791, 156);
    lemma_visit_09(352, 791, 559, 157); lemma_visit_09(353, 559, 95, 158); lemma_visit_09(354, 95, 191, 159); lemma_visit_09(355, 191, 382, 159);
    lemma_visit_09(356, 382, 765, 159); lemma_visit_09(357, 765, 506, 159); lemma_visit_09(358, 506, 1013, 160); lemma_visit_09(359, 1013, 1002, 160);
    lemma_visit_09(360, 1002, 980, 161); lemma_visit_09(361, 980, 936, 162); lemma_visit_09(362, 936, 849, 163); lemma_visit_09(363, 849, 674, 164);
    lemma_visit_09(364, 674, 325, 165); lemma_visit_09(365, 325, 651, 166); lemma_visit_09(366, 651, 279, 166); lemma_visit_09(367, 279, 558, 167);
    lemma_visit_09(368, 558, 93, 167); lemma_visit_09(369, 93, 187, 168); lemma_visit_09(370, 187, 374, 168); lemma_visit_09(371, 374, 749, 168);
    lemma_visit_09(372, 749, 474, 168); lemma_visit_09(373, 474, 949, 169); lemma_visit_09(374, 949, 875, 169); lemma_visit_09(375, 875, 726, 170);
    lemma_visit_09(376, 726, 428, 171); lemma_visit_09(377, 428, 856, 172); lemma_visit_09(378, 856, 688, 172); lemma_visit_09(379, 688, 353, 173);
    lemma_visit_09(380, 353, 707, 174); lemma_visit_09(381, 707, 390, 174); lemma_visit_09(382, 390, 780, 175); lemma_visit_09(383, 780, 537, 175);
}

/// The walk of 0x09 from state 1 up to step 512, state by state.
proof fn lemma_walk_09_to_512()
    ensures
        lfsr_state(0x09, 512) == 528,
        m_seq_ones(0x09, 512) == 244,
        avoids_start(0x09, 512),
{
    lemma_walk_09_to_384();
    lemma_visit_09(384, 537, 51, 176); lemma_visit_09(385, 51, 102, 177); lemma_visit_09(386, 102, 205, 177); lemma_visit_09(387, 205, 411, 177);
    lemma_visit_09(388, 411, 822, 177); lemma_visit_09(389, 822, 621, 177); lemma_visit_09(390, 621, 218, 178); lemma_visit_09(391, 218, 437, 179);
    lemma_visit_09(392, 437, 874, 179); lemma_visit_09(393, 874, 724, 179); lemma_visit_09(394, 724, 424, 180); lemma_visit_09(395, 424, 848, 181);
    lemma_visit_09(396, 848, 672, 181); lemma_visit_09(397, 672, 321, 182); lemma_visit_09(398, 321, 643, 183); lemma_visit_09(399, 643, 263, 183);
    lemma_visit_09(400, 263, 526, 184); lemma_visit_09(401, 526, 29, 184); lemma_visit_09(402, 29, 58, 185); lemma_visit_09(403, 58, 116, 185);
    lemma_visit_09(404, 116, 233, 185); lemma_visit_09(405, 233, 467, 185); lemma_visit_09(406, 467, 935, 185); lemma_visit_09(407, 935, 847, 185);
    lemma_visit_09(408, 847, 670, 186); lemma_visit_09(409, 670, 317, 187); lemma_visit_09(410, 317, 634, 188); lemma_visit_09(411, 634, 244, 188);
    lemma_visit_09(412, 244, 489, 189); lemma_visit_09(413, 489, 979, 189); lemma_visit_09(414, 979, 934, 189); lemma_visit_09(415, 934, 845, 190);
    lemma_visit_09(416, 845, 666, 191); lemma_visit_09(417, 666, 309, 192); lemma_visit_09(418, 309, 618, 193); lemma_visit_09(419, 618, 212, 193);
    lemma_visit_09(420, 212, 425, 194); lemma_visit_09(421, 425, 850, 194); lemma_visit_09(422, 850, 676, 194); lemma_visit_09(423, 676, 329, 195);
    lemma_visit_09(424, 329, 659, 196); lemma_visit_09(425, 659, 295, 196); lemma_visit_09(426, 295, 590, 197); lemma_visit_09(427, 590, 156, 197);
    lemma_visit_09(428, 156, 312, 198); lemma_visit_09(429, 312, 624, 198); lemma_visit_09(430, 624, 224, 198); lemma_visit_09(431, 224, 449, 199);
    lemma_visit_09(432, 449, 899, 199); lemma_visit_09(433, 899, 775, 199); lemma_visit_09(434, 775, 527, 200); lemma_visit_09(435, 527, 31, 201);
    lemma_visit_09(436, 31, 62, 202); lemma_visit_09(437, 62, 124, 202); lemma_visit_09(438, 124, 249, 202); lemma_visit_09(439, 249, 499, 202);
    lemma_visit_09(440, 499, 999, 202); lemma_visit_09(441, 999, 974, 202); lemma_visit_09(442, 974, 924, 203); lemma_visit_09(443, 924, 825, 204);
    lemma_visit_09(444, 825, 627, 205); lemma_visit_09(445, 627, 230, 206); lemma_visit_09(446, 230, 461, 207); lemma_visit_09(447, 461, 923, 207);
    lemma_visit_09(448, 923, 823, 207); lemma_visit_09(449, 823, 623, 208); lemma_visit_09(450, 623, 222, 209); lemma_visit_09(451, 222, 445, 210);
    lemma_visit_09(452, 445, 890, 210); lemma_visit_09(453, 890, 756, 210); lemma_visit_09(454, 756, 488, 211); lemma_visit_09(455, 488, 977, 212);
    lemma_visit_09(456, 977, 930, 212); lemma_visit_09(457, 930, 837, 213); lemma_visit_09(458, 837, 650, 214); lemma_visit_09(459, 650, 277, 215);
    lemma_visit_09(460, 277, 554, 216); lemma_visit_09(461, 554, 85, 216); lemma_visit_09(462, 85, 171, 217); lemma_visit_09(463, 171, 342, 217);
    lemma_visit_09(464, 342, 685, 217); lemma_visit_09(465, 685, 347, 217); lemma_visit_09(466, 347, 695, 218); lemma_visit_09(467, 695, 367, 218);
    lemma_visit_09(468, 367, 735, 219); lemma_visit_09(469, 735, 446, 219); lemma_visit_09(470, 446, 892, 220); lemma_visit_09(471, 892, 760, 220);
    lemma_visit_09(472, 760, 496, 221); lemma_visit_09(473, 496, 993, 222); lemma_visit_09(474, 993, 962, 222); lemma_visit_09(475, 962, 900, 223);
    lemma_visit_09(476, 900, 777, 224); lemma_visit_09(477, 777, 531, 225); lemma_visit_09(478, 531, 39, 226); lemma_visit_09(479, 39, 78, 227);
    lemma_visit_09(480, 78, 157, 227); lemma_visit_09(481, 157, 314, 227); lemma_visit_09(482, 314, 628, 227); lemma_visit_09(483, 628, 232, 227);
    lemma_visit_09(484, 232, 465, 228); lemma_visit_09(485, 465, 931, 228); lemma_visit_09(486, 931, 839, 228); lemma_visit_09(487, 839, 654, 229);
    lemma_visit_09(488, 654, 285, 230); lemma_visit_09(489, 285, 570, 231); lemma_visit_09(490, 570, 117, 231); lemma_visit_09(491, 117, 235, 232);
    lemma_visit_09(492, 235, 471, 232); lemma_visit_09(493, 471, 943, 232); lemma_visit_09(494, 943, 863, 232); lemma_visit_09(495, 863, 702, 233);
    lemma_visit_09(496, 702, 381, 234); lemma_visit_09(497, 381, 763, 235); lemma_visit_09(498, 763, 502, 235); lemma_visit_09(499, 502, 1005, 236);
    lemma_visit_09(500, 1005, 986, 236); lemma_visit_09(501, 986, 948, 237); lemma_visit_09(502, 948, 873, 238); lemma_visit_09(503, 873, 722, 239);
    lemma_visit_09(504, 722, 420, 240); lemma_visit_09(505, 420, 840, 241); lemma_visit_09(506, 840, 656, 241); lemma_visit_09(507, 656, 289, 242);
    lemma_visit_09(508, 289, 578, 243); lemma_visit_09(509, 578, 132, 243); lemma_visit_09(510, 132, 264, 244); lemma_visit_09(511, 264, 528, 244);
}

/// The walk of 0x09 from state 1 up to step 640, state by state.
proof fn lemma_walk_09_to_640()
    ensures
        lfsr_state(0x09, 640) == 301,
        m_seq_ones(0x09, 640) == 307,
        avoids_start(0x09, 640),
{
    lemma_walk_09_to_512();
    lemma_visit_09(512, 528, 33, 244); lemma_visit_09(513, 33, 66, 245); lemma_visit_09(514, 66, 133, 245); lemma_visit_09(515, 133, 266, 245);
    lemma_visit_09(516, 266, 532, 245); lemma_visit_09(517, 532, 41, 245); lemma_visit_09(518, 41, 82, 246); lemma_visit_09(519, 82, 165, 246);
    lemma_visit_09(520, 165, 330, 246); lemma_visit_09(521, 330, 661, 246); lemma_visit_09(522, 661, 299, 246); lemma_visit_09(523, 299, 598, 247);
    lemma_visit_09(524, 598, 172, 247); lemma_visit_09(525, 172, 344, 248); lemma_visit_09(526, 344, 689, 248); lemma_visit_09(527, 689, 355, 248);
    lemma_visit_09(528, 355, 711, 249); lemma_visit_09(529, 711, 398, 249); lemma_visit_09(530, 398, 796, 250); lemma_visit_09(531, 796, 569, 250);
    lemma_visit_09(532, 569, 115, 251); lemma_visit_09(533, 115, 231, 252); lemma_visit_09(534, 231, 463, 252); lemma_visit_09(535, 463, 927, 252);
    lemma_visit_09(536, 927, 831, 252); lemma_visit_09(537, 831, 639, 253); lemma_visit_09(538, 639, 254, 254); lemma_visit_09(539, 254, 509, 255);
    lemma_visit_09(540, 509, 1019, 255); lemma_visit_09(541, 1019, 1014, 255); lemma_visit_09(542, 1014, 1004, 256); lemma_visit_09(543, 1004, 984, 257);
    lemma_visit_09(544, 984, 944, 258); lemma_visit_09(545, 944, 865, 259); lemma_visit_09(546, 865, 706, 260); lemma_visit_09(547, 706, 388, 261);
    lemma_visit_09(548, 388, 776, 262); lemma_visit_09(549, 776, 529, 262); lemma_visit_09(550, 529, 35, 263); lemma_visit_09(551, 35, 70, 264);
    lemma_visit_09(552, 70, 141, 264); lemma_visit_09(553, 141, 282, 264); lemma_visit_09(554, 282, 564, 264); lemma_visit_09(555, 564, 105, 264);
    lemma_visit_09(556, 105, 211, 265); lemma_visit_09(557, 211, 423, 265); lemma_visit_09(558, 423, 846, 265); lemma_visit_09(559, 846, 668, 265);
    lemma_visit_09(560, 668, 313, 266); lemma_visit_09(561, 313, 626, 267); lemma_visit_09(562, 626, 228, 267); lemma_visit_09(563, 228, 457, 268);
    lemma_visit_09(564, 457, 915, 268); lemma_visit_09(565, 915, 807, 268); lemma_visit_09(566, 807, 591, 269); lemma_visit_09(567, 591, 158, 270);
    lemma_visit_09(568, 158, 316, 271); lemma_visit_09(569, 316, 632, 271); lemma_visit_09(570, 632, 240, 271); lemma_visit_09(571, 240, 481, 272);
    lemma_visit_09(572, 481, 963, 272); lemma_visit_09(573, 963, 902, 272); lemma_visit_09(574, 902, 781, 273); lemma_visit_09(575, 781, 539, 274);
    lemma_visit_09(576, 539, 55, 275); lemma_visit_09(577, 55, 110, 276); lemma_visit_09(578, 110, 221, 276); lemma_visit_09(579, 221, 443, 276);
    lemma_visit_09(580, 443, 886, 276); lemma_visit_09(581, 886, 748, 276); lemma_visit_09(582, 748, 472, 277); lemma_visit_09(583, 472, 945, 278);
    lemma_visit_09(584, 945, 867, 278); lemma_visit_09(585, 867, 710, 279); lemma_visit_09(586, 710, 396, 280); lemma_visit_09(587, 396, 792, 281);
    lemma_visit_09(588, 792, 561, 281); lemma_visit_09(589, 561, 99, 282); lemma_visit_09(590, 99, 199, 283); lemma_visit_09(591, 199, 399, 283);
    lemma_visit_09(592, 399, 798, 283); lemma_visit_09(593, 798, 573, 283); lemma_visit_09(594, 573, 123, 284); lemma_visit_09(595, 123, 247, 285);
    lemma_visit_09(596, 247, 495, 285); lemma_visit_09(597, 495, 991, 285); lemma_visit_09(598, 991, 958, 285); lemma_visit_09(599, 958, 893, 286);
    lemma_visit_09(600, 893, 762, 287); lemma_visit_09(601, 762, 500, 288); lemma_visit_09(602, 500, 1001, 289); lemma_visit_09(603, 1001, 978, 289);
    lemma_visit_09(604, 978, 932, 290); lemma_visit_09(605, 932, 841, 291); lemma_visit_09(606, 841, 658, 292); lemma_visit_09(607, 658, 293, 293);
    lemma_visit_09(608, 293, 586, 294); lemma_visit_09(609, 586, 148, 294); lemma_visit_09(610, 148, 296, 295); lemma_visit_09(611, 296, 592, 295);
    lemma_visit_09(612, 592, 160, 295); lemma_visit_09(613, 160, 320, 296); lemma_visit_09(614, 320, 641, 296); lemma_visit_09(615, 641, 259, 296);
    lemma_visit_09(616, 259, 518, 297); lemma_visit_09(617, 518, 13, 297); lemma_visit_09(618, 13, 26, 298); lemma_visit_09(619, 26, 52, 298);
    lemma_visit_09(620, 52, 104, 298); lemma_visit_09(621, 104, 209, 298); lemma_visit_09(622, 209, 419, 298); lemma_visit_09(623, 419, 838, 298);
    lemma_visit_09(624, 838, 652, 298); lemma_visit_09(625, 652, 281, 299); lemma_visit_09(626, 281, 562, 300); lemma_visit_09(627, 562, 101, 300);
    lemma_visit_09(628, 101, 203, 301); lemma_visit_09(629, 203, 407, 301); lemma_visit_09(630, 407, 814, 301); lemma_visit_09(631, 814, 605, 301);
    lemma_visit_09(632, 605, 186, 302); lemma_visit_09(633, 186, 372, 303); lemma_visit_09(634, 372, 745, 303); lemma_visit_09(635, 745, 466, 303);
    lemma_visit_09(636, 466, 933, 304); lemma_visit_09(637, 933, 843, 304); lemma_visit_09(638, 843, 662, 305); lemma_visit_09(639, 662, 301, 306);
}

/// The walk of 0x09 from state 1 up to step 768, state by state.
proof fn lemma_walk_09_to_768()
    ensures
        lfsr_state(0x09, 768) == 67,
        m_seq_ones(0x09, 768) == 374,
        avoids_start(0x09, 768),
{
    lemma_walk_09_to_640();
    lemma_visit_09(640, 301, 602, 307); lemma_visit_09(641, 602, 180, 307); lemma_visit_09(642, 180, 360, 308); lemma_visit_09(643, 360, 721, 308);
    lemma_visit_09(644, 721, 418, 308); lemma_visit_09(645, 418, 836, 309); lemma_visit_09(646, 836, 648, 309); lemma_visit_09(647, 648, 273, 310);
    lemma_visit_09(648, 273, 546, 311); lemma_visit_09(649, 546, 69, 311); lemma_visit_09(650, 69, 139, 312); lemma_visit_09(651, 139, 278, 312);
    lemma_visit_09(652, 278, 556, 312); lemma_visit_09(653, 556, 89, 312); lemma_visit_09(654, 89, 179, 313); lemma_visit_09(655, 179, 358, 313);
    lemma_visit_09(656, 358, 717, 313); lemma_visit_09(657, 717, 410, 313); lemma_visit_09(658, 410, 820, 314); lemma_visit_09(659, 820, 617, 314);
    lemma_visit_09(660, 617, 210, 315); lemma_visit_09(661, 210, 421, 316); lemma_visit_09(662, 421, 842, 316); lemma_visit_09(663, 842, 660, 316);
    lemma_visit_09(664, 660, 297, 317); lemma_visit_09(665, 297, 594, 318); lemma_visit_09(666, 594, 164, 318); lemma_visit_09(667, 164, 328, 319);
    lemma_visit_09(668, 328, 657, 319); lemma_visit_09(669, 657, 291, 319); lemma_visit_09(670, 291, 582, 320); lemma_visit_09(671, 582, 140, 320);
    lemma_visit_09(672, 140, 280, 321); lemma_visit_09(673, 280, 560, 321); lemma_visit_09(674, 560, 97, 321); lemma_visit_09(675, 97, 195, 322);
    lemma_visit_09(676, 195, 391, 322); lemma_visit_09(677, 391, 782, 322); lemma_visit_09(678, 782, 541, 322); lemma_visit_09(679, 541, 59, 323);
    lemma_visit_09(680, 59, 118, 324); lemma_visit_09(681, 118, 237, 324); lemma_visit_09(682, 237, 475, 324); lemma_visit_09(683, 475, 951, 324);
    lemma_visit_09(684, 951, 879, 324); lemma_visit_09(685, 879, 734, 325); lemma_visit_09(686, 734, 444, 326); lemma_visit_09(687, 444, 888, 327);
    lemma_visit_09(688, 888, 752, 327); lemma_visit_09(689, 752, 480, 328); lemma_visit_09(690, 480, 961, 329); lemma_visit_09(691, 961, 898, 329);
    lemma_visit_09(692, 898, 773, 330); lemma_visit_09(693, 773, 523, 331); lemma_visit_09(694, 523, 23, 332); lemma_visit_09(695, 23, 46, 333);
    lemma_visit_09(696, 46, 92, 333); lemma_visit_09(697, 92, 185, 333); lemma_visit_09(698, 185, 370, 333); lemma_visit_09(699, 370, 741, 333);
    lemma_visit_09(700, 741, 458, 333); lemma_visit_09(701, 458, 917, 334); lemma_visit_09(702, 917, 811, 334); lemma_visit_09(703, 811, 599, 335);
    lemma_visit_09(704, 599, 174, 336); lemma_visit_09(705, 174, 348, 337); lemma_visit_09(706, 348, 697, 337); lemma_visit_09(707, 697, 371, 337);
    lemma_visit_09(708, 371, 743, 338); lemma_visit_09(709, 743, 462, 338); lemma_visit_09(710, 462, 925, 339); lemma_visit_09(711, 925, 827, 339);
    lemma_visit_09(712, 827, 631, 340); lemma_visit_09(713, 631, 238, 341); lemma_visit_09(714, 238, 477, 342); lemma_visit_09(715, 477, 955, 342);
    lemma_visit_09(716, 955, 887, 342); lemma_visit_09(717, 887, 750, 343); lemma_visit_09(718, 750, 476, 344); lemma_visit_09(719, 476, 953, 345);
    lemma_visit_09(720, 953, 883, 345); lemma_visit_09(721, 883, 742, 346); lemma_visit_09(722, 742, 460, 347); lemma_visit_09(723, 460, 921, 348);
    lemma_visit_09(724, 921, 819, 348); lemma_visit_09(725, 819, 615, 349); lemma_visit_09(726, 615, 206, 350); lemma_visit_09(727, 206, 413, 351);
    lemma_visit_09(728, 413, 826, 351); lemma_visit_09(729, 826, 629, 351); lemma_visit_09(730, 629, 234, 352); lemma_visit_09(731, 234, 469, 353);
    lemma_visit_09(732, 469, 939, 353); lemma_visit_09(733, 939, 855, 353); lemma_visit_09(734, 855, 686, 354); lemma_visit_09(735, 686, 349, 355);
    lemma_visit_09(736, 349, 699, 356); lemma_visit_09(737, 699, 375, 356); lemma_visit_09(738, 375, 751, 357); lemma_visit_09(739, 751, 478, 357);
    lemma_visit_09(740, 478, 957, 358); lemma_visit_09(741, 957, 891, 358); lemma_visit_09(742, 891, 758, 359); lemma_visit_09(743, 758, 492, 360);
    lemma_visit_09(744, 492, 985, 361); lemma_visit_09(745, 985, 946, 361); lemma_visit_09(746, 946, 869, 362); lemma_visit_09(747, 869, 714, 363);
    lemma_visit_09(748, 714, 404, 364); lemma_visit_09(749, 404, 808, 365); lemma_visit_09(750, 808, 593, 365); lemma_visit_09(751, 593, 162, 366);
    lemma_visit_09(752, 162, 324, 367); lemma_visit_09(753, 324, 649, 367); lemma_visit_09(754, 649, 275, 367); lemma_visit_09(755, 275, 550, 368);
    lemma_visit_09(756, 550, 77, 368); lemma_visit_09(757, 77, 155, 369); lemma_visit_09(758, 155, 310, 369); lemma_visit_09(759, 310, 620, 369);
    lemma_visit_09(760, 620, 216, 369); lemma_visit_09(761, 216, 433, 370); lemma_visit_09(762, 433, 866, 370); lemma_visit_09(763, 866, 708, 370);
    lemma_visit_09(764, 708, 392, 371); lemma_visit_09(765, 392, 784, 372); lemma_visit_09(766, 784, 545, 372); lemma_visit_09(767, 545, 67, 373);
}

/// The walk of 0x09 from state 1 up to step 896, state by state.
proof fn lemma_walk_09_to_896()
    ensures
        lfsr_state(0x09, 896) == 663,
        m_seq_ones(0x09, 896) == 441,
        avoids_start(0x09, 896),
{
    lemma_walk_09_to_768();
    lemma_visit_09(768, 67, 135, 374); lemma_visit_09(769, 135, 270, 374); lemma_visit_09(770, 270, 540, 374); lemma_visit_09(771, 540, 57, 374);
    lemma_visit_09(772, 57, 114, 375); lemma_visit_09(773, 114, 229, 375); lemma_visit_09(774, 229, 459, 375); lemma_visit_09(775, 459, 919, 375);
    lemma_visit_09(776, 919, 815, 375); lemma_visit_09(777, 815, 607, 376); lemma_visit_09(778, 607, 190, 377); lemma_visit_09(779, 190, 380, 378);
    lemma_visit_09(780, 380, 761, 378); lemma_visit_09(781, 761, 498, 378); lemma_visit_09(782, 498, 997, 379); lemma_visit_09(783, 997, 970, 379);
    lemma_visit_09(784, 970, 916, 380); lemma_visit_09(785, 916, 809, 381); lemma_visit_09(786, 809, 595, 382); lemma_visit_09(787, 595, 166, 383);
    lemma_visit_09(788, 166, 332, 384); lemma_visit_09(789, 332, 665, 384); lemma_visit_09(790, 665, 307, 384); lemma_visit_09(791, 307, 614, 385);
    lemma_visit_09(792, 614, 204, 385); lemma_visit_09(793, 204, 409, 386); lemma_visit_09(794, 409, 818, 386); lemma_visit_09(795, 818, 613, 386);
    lemma_visit_09(796, 613, 202, 387); lemma_visit_09(797, 202, 405, 388); lemma_visit_09(798, 405, 810, 388); lemma_visit_09(799, 810, 597, 388);
    lemma_visit_09(800, 597, 170, 389); lemma_visit_09(801, 170, 340, 390); lemma_visit_09(802, 340, 681, 390); lemma_visit_09(803, 681, 339, 390);
    lemma_visit_09(804, 339, 679, 391); lemma_visit_09(805, 679, 335, 391); lemma_visit_09(806, 335, 671, 392); lemma_visit_09(807, 671, 319, 392);
    lemma_visit_09(808, 319, 638, 393); lemma_visit_09(809, 638, 252, 393); lemma_visit_09(810, 252, 505, 394); lemma_visit_09(811, 505, 1011, 394);
    lemma_visit_09(812, 1011, 998, 394); lemma_visit_09(813, 998, 972, 395); lemma_visit_09(814, 972, 920, 396); lemma_visit_09(815, 920, 817, 397);
    lemma_visit_09(816, 817, 611, 398); lemma_visit_09(817, 611, 198, 399); lemma_visit_09(818, 198, 397, 400); lemma_visit_09(819, 397, 794, 400);
    lemma_visit_09(820, 794, 565, 400); lemma_visit_09(821, 565, 107, 401); lemma_visit_09(822, 107, 215, 402); lemma_visit_09(823, 215, 431, 402);
    lemma_visit_09(824, 431, 862, 402); lemma_visit_09(825, 862, 700, 402); lemma_visit_09(826, 700, 377, 403); lemma_visit_09(827, 377, 755, 404);
    lemma_visit_09(828, 755, 486, 404); lemma_visit_09(829, 486, 973, 405); lemma_visit_09(830, 973, 922, 405); lemma_visit_09(831, 922, 821, 406);
    lemma_visit_09(832, 821, 619, 407); lemma_visit_09(833, 619, 214, 408); lemma_visit_09(834, 214, 429, 409); lemma_visit_09(835, 429, 858, 409);
    lemma_visit_09(836, 858, 692, 409); lemma_visit_09(837, 692, 361, 410); lemma_visit_09(838, 361, 723, 411); lemma_visit_09(839, 723, 422, 411);
    lemma_visit_09(840, 422, 844, 412); lemma_visit_09(841, 844, 664, 412); lemma_visit_09(842, 664, 305, 413); lemma_visit_09(843, 305, 610, 414);
    lemma_visit_09(844, 610, 196, 414); lemma_visit_09(845, 196, 393, 415); lemma_visit_09(846, 393, 786, 415); lemma_visit_09(847, 786, 549, 415);
    lemma_visit_09(848, 549, 75, 416); lemma_visit_09(849, 75, 151, 417); lemma_visit_09(850, 151, 302, 417); lemma_visit_09(851, 302, 604, 417);
    lemma_visit_09(852, 604, 184, 417); lemma_visit_09(853, 184, 368, 418); lemma_visit_09(854, 368, 737, 418); lemma_visit_09(855, 737, 450, 418);
    lemma_visit_09(856, 450, 901, 419); lemma_visit_09(857, 901, 779, 419); lemma_visit_09(858, 779, 535, 420); lemma_visit_09(859, 535, 47, 421);
    lemma_visit_09(860, 47, 94, 422); lemma_visit_09(861, 94, 189, 422); lemma_visit_09(862, 189, 378, 422); lemma_visit_09(863, 378, 757, 422);
    lemma_visit_09(864, 757, 490, 422); lemma_visit_09(865, 490, 981, 423); lemma_visit_09(866, 981, 938, 423); lemma_visit_09(867, 938, 853, 424);
    lemma_visit_09(868, 853, 682, 425); lemma_visit_09(869, 682, 341, 426); lemma_visit_09(870, 341, 683, 427); lemma_visit_09(871, 683, 343, 427);
    lemma_visit_09(872, 343, 687, 428); lemma_visit_09(873, 687, 351, 428); lemma_visit_09(874, 351, 703, 429); lemma_visit_09(875, 703, 383, 429);
    lemma_visit_09(876, 383, 767, 430); lemma_visit_09(877, 767, 510, 430); lemma_visit_09(878, 510, 1021, 431); lemma_visit_09(879, 1021, 1018, 431);
    lemma_visit_09(880, 1018, 1012, 432); lemma_visit_09(881, 1012, 1000, 433); lemma_visit_09(882, 1000, 976, 434); lemma_visit_09(883, 976, 928, 435);
    lemma_visit_09(884, 928, 833, 436); lemma_visit_09(885, 833, 642, 437); lemma_visit_09(886, 642, 261, 438); lemma_visit_09(887, 261, 522, 439);
    lemma_visit_09(888, 522, 21, 439); lemma_visit_09(889, 21, 42, 440); lemma_visit_09(890, 42, 84, 440); lemma_visit_09(891, 84, 169, 440);
    lemma_visit_09(892, 169, 338, 440); lemma_visit_09(893, 338, 677, 440); lemma_visit_09(894, 677, 331, 440); lemma_visit_09(895, 331, 663, 441);
}

/// The walk of 0x09 from state 1 up to step 1022, state by state.
proof fn lemma_walk_09_to_1022()
    ensures
        lfsr_state(0x09, 1022) == 512,
        m_seq_ones(0x09, 1022) == 511,
        avoids_start(0x09, 1022),
{
    lemma_walk_09_to_896();
    lemma_visit_09(896, 663, 303, 441); lemma_visit_09(897, 303, 606, 442); lemma_visit_09(898, 606, 188, 442); lemma_visit_09(899, 188, 376, 443);
    lemma_visit_09(900, 376, 753, 443); lemma_visit_09(901, 753, 482, 443); lemma_visit_09(902, 482, 965, 444); lemma_visit_09(903, 965, 906, 444);
    lemma_visit_09(904, 906, 789, 445); lemma_visit_09(905, 789, 555, 446); lemma_visit_09(906, 555, 87, 447); lemma_visit_09(907, 87, 175, 448);
    lemma_visit_09(908, 175, 350, 448); lemma_visit_09(909, 350, 701, 448); lemma_visit_09(910, 701, 379, 448); lemma_visit_09(911, 379, 759, 449);
    lemma_visit_09(912, 759, 494, 449); lemma_visit_09(913, 494, 989, 450); lemma_visit_09(914, 989, 954, 450); lemma_visit_09(915, 954, 885, 451);
    lemma_visit_09(916, 885, 746, 452); lemma_visit_09(917, 746, 468, 453); lemma_visit_09(918, 468, 937, 454); lemma_visit_09(919, 937, 851, 454);
    lemma_visit_09(920, 851, 678, 455); lemma_visit_09(921, 678, 333, 456); lemma_visit_09(922, 333, 667, 457); lemma_visit_09(923, 667, 311, 457);
    lemma_visit_09(924, 311, 622, 458); lemma_visit_09(925, 622, 220, 458); lemma_visit_09(926, 220, 441, 459); lemma_visit_09(927, 441, 882, 459);
    lemma_visit_09(928, 882, 740, 459); lemma_visit_09(929, 740, 456, 460); lemma_visit_09(930, 456, 913, 461); lemma_visit_09(931, 913, 803, 461);
    lemma_visit_09(932, 803, 583, 462); lemma_visit_09(933, 583, 142, 463); lemma_visit_09(934, 142, 284, 464); lemma_visit_09(935, 284, 568, 464);
    lemma_visit_09(936, 568, 113, 464); lemma_visit_09(937, 113, 227, 465); lemma_visit_09(938, 227, 455, 465); lemma_visit_09(939, 455, 911, 465);
    lemma_visit_09(940, 911, 799, 465); lemma_visit_09(941, 799, 575, 466); lemma_visit_09(942, 575, 127, 467); lemma_visit_09(943, 127, 255, 468);
    lemma_visit_09(944, 255, 511, 468); lemma_visit_09(945, 511, 1023, 468); lemma_visit_09(946, 1023, 1022, 468); lemma_visit_09(947, 1022, 1020, 469);
    lemma_visit_09(948, 1020, 1016, 470); lemma_visit_09(949, 1016, 1008, 471); lemma_visit_09(950, 1008, 992, 472); lemma_visit_09(951, 992, 960, 473);
    lemma_visit_09(952, 960, 896, 474); lemma_visit_09(953, 896, 769, 475); lemma_visit_09(954, 769, 515, 476); lemma_visit_09(955, 515, 7, 477);
    lemma_visit_09(956, 7, 14, 478); lemma_visit_09(957, 14, 28, 478); lemma_visit_09(958, 28, 56, 478); lemma_visit_09(959, 56, 112, 478);
    lemma_visit_09(960, 112, 225, 478); lemma_visit_09(961, 225, 451, 478); lemma_visit_09(962, 451, 903, 478); lemma_visit_09(963, 903, 783, 478);
    lemma_visit_09(964, 783, 543, 479); lemma_visit_09(965, 543, 63, 480); lemma_visit_09(966, 63, 126, 481); lemma_visit_09(967, 126, 253, 481);
    lemma_visit_09(968, 253, 507, 481); lemma_visit_09(969, 507, 1015, 481); lemma_visit_09(970, 1015, 1006, 481); lemma_visit_09(971, 1006, 988, 482);
    lemma_visit_09(972, 988, 952, 483); lemma_visit_09(973, 952, 881, 484); lemma_visit_09(974, 881, 738, 485); lemma_visit_09(975, 738, 452, 486);
    lemma_visit_09(976, 452, 905, 487); lemma_visit_09(977, 905, 787, 487); lemma_visit_09(978, 787, 551, 488); lemma_visit_09(979, 551, 79, 489);
    lemma_visit_09(980, 79, 159, 490); lemma_visit_09(981, 159, 318, 490); lemma_visit_09(982, 318, 636, 490); lemma_visit_09(983, 636, 248, 490);
    lemma_visit_09(984, 248, 497, 491); lemma_visit_09(985, 497, 995, 491); lemma_visit_09(986, 995, 966, 491); lemma_visit_09(987, 966, 908, 492);
    lemma_visit_09(988, 908, 793, 493); lemma_visit_09(989, 793, 563, 494); lemma_visit_09(990, 563, 103, 495); lemma_visit_09(991, 103, 207, 496);
    lemma_visit_09(992, 207, 415, 496); lemma_visit_09(993, 415, 830, 496); lemma_visit_09(994, 830, 637, 496); lemma_visit_09(995, 637, 250, 497);
    lemma_visit_09(996, 250, 501, 498); lemma_visit_09(997, 501, 1003, 498); lemma_visit_09(998, 1003, 982, 498); lemma_visit_09(999, 982, 940, 499);
    lemma_visit_09(1000, 940, 857, 500); lemma_visit_09(1001, 857, 690, 501); lemma_visit_09(1002, 690, 357, 502); lemma_visit_09(1003, 357, 715, 503);
    lemma_visit_09(1004, 715, 406, 503); lemma_visit_09(1005, 406, 812, 504); lemma_visit_09(1006, 812, 601, 504); lemma_visit_09(1007, 601, 178, 505);
    lemma_visit_09(1008, 178, 356, 506); lemma_visit_09(1009, 356, 713, 506); lemma_visit_09(1010, 713, 402, 506); lemma_visit_09(1011, 402, 804, 507);
    lemma_visit_09(1012, 804, 585, 507); lemma_visit_09(1013, 585, 146, 508); lemma_visit_09(1014, 146, 292, 509); lemma_visit_09(1015, 292, 584, 509);
    lemma_visit_09(1016, 584, 144, 509); lemma_visit_09(1017, 144, 288, 510); lemma_visit_09(1018, 288, 576, 510); lemma_visit_09(1019, 576, 128, 510);
    lemma_visit_09(1020, 128, 256, 511); lemma_visit_09(1021, 256, 512, 511);
}

/// The walk of 0x09 from state 1 returns to state 1 after 1023 steps and not before,
/// with 512 outputs of +1 on the way.
proof fn lemma_walk_09()
    ensures
        lfsr_state(0x09, 1023) == 1,
        m_seq_ones(0x09, 1023) == 512,
        avoids_start(0x09, 1022),
{
    lemma_walk_09_to_1022();
    lemma_step_09(512);
    assert(lfsr_state(0x09, 1023) == lfsr_step(0x09, 512));
}

/// The LFSR step of 0x09 loses nothing: distinct 10-bit states have distinct successors.
proof fn lemma_step_09_injective(s: nat, t: nat)
    requires
        s < 1024,
        t < 1024,
        lfsr_step(0x09, s) == lfsr_step(0x09, t),
    ensures
        s == t,
{
    lemma_step_09(s);
    lemma_step_09(t);
    let x = s as u32;
    let y = t as u32;
    assert(x == y) by (bit_vector)
        requires
            x < 1024,
            y < 1024,
            2 * (x % 512) + (x / 512 + (x / 64) % 2) % 2 == 2 * (y % 512) + (y / 512 + (y / 64) % 2) % 2,
    ;
}

/// States `i < j` of the first period differ: otherwise stepping both back `i` times
/// would bring state `j - i` back to the start state.
proof fn lemma_states_09_distinct(i: nat, j: nat)
    requires
        i < j < 1023,
    ensures
        lfsr_state(0x09, i) != lfsr_state(0x09, j),
    decreases i,
{
    lemma_walk_09();
    if i == 0 {
        assert(lfsr_state(0x09, j) != 1);
    } else {
        lemma_states_09_distinct((i - 1) as nat, (j - 1) as nat);
        if lfsr_state(0x09, i) == lfsr_state(0x09, j) {
            lemma_lfsr_state_bound(0x09, (i - 1) as nat);
            lemma_lfsr_state_bound(0x09, (j - 1) as nat);
            lemma_step_09_injective(lfsr_state(0x09, (i - 1) as nat), lfsr_state(0x09, (j - 1) as nat));
        }
    }
}

/// After 1023 steps the LFSR of 0x09 is where it was.
proof fn lemma_period_09(k: nat)
    ensures
        lfsr_state(0x09, k + 1023) == lfsr_state(0x09, k),
    decreases k,
{
    if k == 0 {
        lemma_walk_09();
    } else {
        lemma_period_09((k - 1) as nat);
        assert(lfsr_state(0x09, (k + 1023) as nat) == lfsr_step(0x09, lfsr_state(0x09, (k - 1 + 1023) as nat)));
    }
}

/// The LFSR of 0x09 never reaches the all-zero state.
proof fn lemma_nonzero_09(k: nat)
    ensures
        lfsr_state(0x09, k) != 0,
    decreases k,
{
    if k > 0 {
        lemma_nonzero_09((k - 1) as nat);
        lemma_lfsr_state_bound(0x09, (k - 1) as nat);
        lemma_step_09(0);
        if lfsr_state(0x09, k) == 0 {
            lemma_step_09_injective(lfsr_state(0x09, (k - 1) as nat), 0);
        }
    }
}

/// Some state among the first `n` of the LFSR of `tap` is `v`.
pub open spec fn state_occurs(tap: u32, v: nat, n: nat) -> bool {
    exists|k: nat| k < n && #[trigger] lfsr_state(tap, k) == v
}

/// Every nonzero 10-bit state occurs in the first period of 0x09: 1023 distinct
/// values among the 1023 nonzero ones leave none out.
proof fn lemma_states_09_cover(v: nat)
    requires
        0 < v < 1024,
    ensures
        state_occurs(0x09, v, 1023),
{
    let states = Seq::new(1023, |k: int| lfsr_state(0x09, k as nat) as int);
    assert forall|a: int, b: int| 0 <= a < states.len() && 0 <= b < states.len() && a != b implies states[a]
        != states[b] by {
        if a < b {
            lemma_states_09_distinct(a as nat, b as nat);
        } else {
            lemma_states_09_distinct(b as nat, a as nat);
        }
    }
    assert(states.no_duplicates());
    states.unique_seq_to_set();
    vstd::seq_lib::seq_to_set_is_finite(states);
    let range = vstd::set_lib::set_int_range(1, 1024);
    vstd::set_lib::lemma_int_range(1, 1024);
    assert forall|x: int| states.to_set().contains(x) implies range.contains(x) by {
        let k = choose|k: int| 0 <= k < states.len() && states[k] == x;
        lemma_nonzero_09(k as nat);
        lemma_lfsr_state_bound(0x09, k as nat);
    }
    vstd::set_lib::lemma_subset_equality(states.to_set(), range);
    assert(range.contains(v as int));
    assert(states.to_set().contains(v as int));
    let k = choose|k: int| 0 <= k < states.len() && states[k] == v as int;
    assert(lfsr_state(0x09, k as nat) == v);
}

/// The tap polynomial 0x09 (`x^10 + x^3 + 1`, primitive over GF(2)) gives an
/// m-sequence of maximal length: from state 1 the LFSR runs through 1023 distinct
/// nonzero 10-bit states (so each nonzero state once) and is back at state 1
/// after 1023 steps, so the output repeats with period 1023; one period holds 512
/// outputs of +1 and 511 of -1.
pub proof fn lemma_m_seq_period()
    ensures
        forall|i: nat, j: nat|
            i < j < 1023 ==> #[trigger] lfsr_state(0x09, i) != #[trigger] lfsr_state(0x09, j),
        forall|k: nat| 0 < #[trigger] lfsr_state(0x09, k) < 1024,
        forall|v: nat| 0 < v < 1024 ==> #[trigger] state_occurs(0x09, v, 1023),
        forall|k: nat| #[trigger] lfsr_state(0x09, k + 1023) == lfsr_state(0x09, k),
        forall|k: nat| #[trigger] m_seq_at(0x09, k + 1023) == m_seq_at(0x09, k),
        m_seq_ones(0x09, 1023) == 512,
{
    lemma_walk_09();
    assert forall|i: nat, j: nat| i < j < 1023 implies #[trigger] lfsr_state(0x09, i) != #[trigger] lfsr_state(
        0x09,
        j,
    ) by {
        lemma_states_09_distinct(i, j);
    }
    assert forall|k: nat| 0 < #[trigger] lfsr_state(0x09, k) < 1024 by {
        lemma_nonzero_09(k);
        lemma_lfsr_state_bound(0x09, k);
    }
    assert forall|v: nat| 0 < v < 1024 implies #[trigger] state_occurs(0x09, v, 1023) by {
        lemma_states_09_cover(v);
    }
    assert forall|k: nat| #[trigger] lfsr_state(0x09, k + 1023) == lfsr_state(0x09, k) by {
        lemma_period_09(k);
    }
    assert forall|k: nat| #[trigger] m_seq_at(0x09, k + 1023) == m_seq_at(0x09, k) by {
        lemma_period_09(k);
    }
}

} // verus!
