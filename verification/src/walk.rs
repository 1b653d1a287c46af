//! The alignment-guided nibble walk as a state machine: it proposes byte strings
//! to an error-count oracle (the compiler, run by the caller) and keeps each
//! proposal that lowers the count.
//!
//! Phase 1 tries, for each of the best cross-correlation shifts, the nibble edits
//! that move the current bytes towards the gold bytes at that shift; phase 2 tries
//! random single-nibble mutations from a fixed-seed generator.
use vstd::prelude::*;
use vstd::string::StringExecFns;
use crate::gold_cycle::{
    Lcg64, apply_nib_pos, bin_candidates, bin_p1_candidates, circ_xcorr, circ_xcorr_bin,
    circ_xcorr_nib, ints_i32, ints_i64, ints_u8, lcg_iter,
    nib_candidates, nib_p1_candidates, nib_sign, nibble_at, nibbles, nibble_mutate_rng,
    replace_nibble, set_nibble, shift_before, to_bin_nib, to_nib_seq, top_k_shifts, xcorr_fits,
    copy_bytes,
};
use crate::text::{decimal, push_char, push_decimal};

verus! {

/// A scalar field for the walk: how bytes are encoded, correlated, and turned
/// into phase-1 nibble edits.
pub trait WalkStrategy {
    /// One encoded nibble.
    type Scalar: Copy;

    /// The encoded scalars as integers.
    spec fn scalars(a: Seq<Self::Scalar>) -> Seq<int>;

    /// The encoding of a byte string.
    spec fn spec_encode(bytes: Seq<u8>) -> Seq<Self::Scalar>;

    /// The phase-1 edits (nibble index, new nibble) for shift `k`, at most `max`.
    spec fn spec_candidates(cur: Seq<u8>, gold_enc: Seq<Self::Scalar>, k: int, max: int) -> Seq<
        (usize, u8),
    >;

    /// The label prefix of phase-1 acceptances.
    spec fn spec_label() -> Seq<char>;

    /// Bytes to scalars, two per byte, each between -15 and 15.
    fn encode(bytes: &[u8]) -> (r: Vec<Self::Scalar>)
        ensures
            r@ == Self::spec_encode(bytes@),
            r@.len() == 2 * bytes@.len(),
            Self::scalars(r@).len() == r@.len(),
            forall|i: int| 0 <= i < r@.len() ==> -15 <= #[trigger] Self::scalars(r@)[i] <= 15,
    ;

    /// Circular cross-correlation of two scalar sequences.
    fn xcorr(a: &[Self::Scalar], b: &[Self::Scalar]) -> (r: Vec<i64>)
        requires
            xcorr_fits(Self::scalars(a@), Self::scalars(b@)),
        ensures
            ints_i64(r@) == circ_xcorr(Self::scalars(a@), Self::scalars(b@)),
    ;

    /// The phase-1 edits of `cur` towards `gold_enc` at shift `k`, at most `max`.
    fn p1_candidates(cur: &[u8], gold_enc: &[Self::Scalar], k: usize, max: usize) -> (r: Vec<
        (usize, u8),
    >)
        requires
            cur@.len() > 0 ==> gold_enc@.len() > 0,
            2 * cur@.len() + k <= usize::MAX,
        ensures
            r@ == Self::spec_candidates(cur@, gold_enc@, k as int, max as int),
            r@.len() <= 2 * cur@.len(),
            r@.len() <= max,
    ;

    /// The label prefix of phase-1 acceptances.
    fn phase1_label_prefix() -> (r: &'static str)
        ensures
            r@ == Self::spec_label(),
    ;
}

/// The binary field: nibbles as signs (-1 below 8, +1 from 8); a phase-1 edit
/// sets a nibble whose sign differs from the gold sign to 0x8 or 0x0, in nibble order.
pub struct BinField;

impl WalkStrategy for BinField {
    type Scalar = i32;

    open spec fn scalars(a: Seq<i32>) -> Seq<int> {
        ints_i32(a)
    }

    open spec fn spec_encode(bytes: Seq<u8>) -> Seq<i32> {
        Seq::new(2 * bytes.len(), |j: int| nib_sign(nibble_at(bytes, j)))
    }

    open spec fn spec_candidates(cur: Seq<u8>, gold_enc: Seq<i32>, k: int, max: int) -> Seq<
        (usize, u8),
    > {
        bin_candidates(cur, gold_enc, k, max)
    }

    open spec fn spec_label() -> Seq<char> {
        "Phase1-circ"@
    }

    fn encode(bytes: &[u8]) -> (r: Vec<i32>) {
        let r = to_bin_nib(bytes);
        assert(r@ =~= Seq::new(2 * bytes@.len(), |j: int| nib_sign(nibble_at(bytes@, j))));
        r
    }

    fn xcorr(a: &[i32], b: &[i32]) -> (r: Vec<i64>) {
        circ_xcorr_bin(a, b)
    }

    fn p1_candidates(cur: &[u8], gold_enc: &[i32], k: usize, max: usize) -> (r: Vec<(usize, u8)>) {
        bin_p1_candidates(cur, gold_enc, k, max)
    }

    fn phase1_label_prefix() -> (r: &'static str) {
        "Phase1-circ"
    }
}

/// The nibble field: nibbles as values 0..=15; phase-1 edits set a nibble to the
/// gold nibble, the largest differences first.
pub struct NibField;

impl WalkStrategy for NibField {
    type Scalar = u8;

    open spec fn scalars(a: Seq<u8>) -> Seq<int> {
        ints_u8(a)
    }

    open spec fn spec_encode(bytes: Seq<u8>) -> Seq<u8> {
        nibbles(bytes)
    }

    open spec fn spec_candidates(cur: Seq<u8>, gold_enc: Seq<u8>, k: int, max: int) -> Seq<
        (usize, u8),
    > {
        nib_candidates(cur, gold_enc, k, max)
    }

    open spec fn spec_label() -> Seq<char> {
        "Phase1-circ-nib"@
    }

    fn encode(bytes: &[u8]) -> (r: Vec<u8>) {
        let r = to_nib_seq(bytes);
        assert forall|i: int| 0 <= i < r@.len() implies -15 <= #[trigger] ints_u8(r@)[i] <= 15 by {
            let b = bytes@[i / 2];
            assert(b >> 4u8 <= 15 && b & 0x0fu8 <= 15) by (bit_vector);
        }
        r
    }

    fn xcorr(a: &[u8], b: &[u8]) -> (r: Vec<i64>) {
        circ_xcorr_nib(a, b)
    }

    fn p1_candidates(cur: &[u8], gold_enc: &[u8], k: usize, max: usize) -> (r: Vec<(usize, u8)>) {
        nib_p1_candidates(cur, gold_enc, k, max)
    }

    fn phase1_label_prefix() -> (r: &'static str) {
        "Phase1-circ-nib"
    }
}

/// Walk parameters.
#[derive(Clone, Copy, Debug)]
pub struct WalkConfig {
    /// How many of the best shifts phase 1 visits.
    pub top_k_shifts: usize,
    /// At most this many edits per shift.
    pub cands_per_shift: usize,
    /// Number of random trials of phase 2.
    pub phase2_trials: usize,
    /// Seed of the phase-2 generator.
    pub seed: u64,
}

/// The outcome of a walk.
pub struct WalkResult {
    /// Error count of the starting bytes.
    pub h_start: u32,
    /// Lowest error count reached.
    pub h_min: u32,
    /// Accepted phase-1 edits.
    pub p1_accepts: usize,
    /// Accepted phase-2 mutations.
    pub p2_accepts: usize,
    /// Phase-1 edits tried.
    pub p1_trials: usize,
    /// The bytes with the lowest error count.
    pub best_bytes: Vec<u8>,
    /// The highest cross-correlation value.
    pub xcorr_peak: i64,
    /// The shift of the highest cross-correlation value (the last one on ties).
    pub k_star: usize,
    /// Each acceptance: (trial number, label, count before, count after).
    pub accept_details: Vec<(usize, String, u32, u32)>,
}

/// Where the walk stands.
#[derive(PartialEq, Eq, Structural, Clone, Copy, Debug)]
pub enum WalkPhase {
    /// Waiting for the error count of the starting bytes.
    Start,
    /// Waiting for the count of a phase-1 edit.
    Shift,
    /// Waiting for the count of a phase-2 mutation.
    Random,
    /// Done.
    Finished,
}

/// The state of a walk, as mathematical values.
pub struct WalkModel<T> {
    pub cfg: WalkConfig,
    pub gold_enc: Seq<T>,
    pub xcorr: Seq<i64>,
    pub shifts: Seq<usize>,
    pub xcorr_peak: i64,
    pub k_star: usize,
    pub rng: u64,
    pub h_start: u32,
    pub cur: Seq<u8>,
    pub h_cur: u32,
    pub h_min: u32,
    pub best: Seq<u8>,
    pub p1_accepts: usize,
    pub p2_accepts: usize,
    pub total_p1: usize,
    pub details: Seq<(usize, Seq<char>, u32, u32)>,
    pub phase: WalkPhase,
    pub si: usize,
    pub ci: usize,
    pub ti: usize,
    pub cands: Seq<(usize, u8)>,
    pub pending: Seq<u8>,
}

/// The index of the last greatest value among the first `n` (0 when `n` is 0).
pub open spec fn last_argmax(x: Seq<i64>, n: int) -> int
    decreases n,
{
    if n <= 1 {
        0
    } else {
        let p = last_argmax(x, n - 1);
        if x[n - 1] >= x[p] {
            n - 1
        } else {
            p
        }
    }
}

/// The label of a phase-1 acceptance at shift `k`: the prefix, then `(k=`, the
/// decimal shift and `)`.
pub open spec fn phase1_label(prefix: Seq<char>, k: usize) -> Seq<char> {
    prefix + seq!['(', 'k', '='] + decimal(k as nat) + seq![')']
}

/// The label of a phase-2 acceptance.
pub open spec fn phase2_label() -> Seq<char> {
    "Phase2-random"@
}

/// The mutation that the generator in state `rng` makes of `cur`.
pub open spec fn mutation(rng: u64, cur: Seq<u8>) -> Seq<u8> {
    replace_nibble(
        cur,
        ((lcg_iter(rng, 1) as usize) % (cur.len() as usize)) as int,
        lcg_iter(rng, 2) & 1 == 0,
        (lcg_iter(rng, 3) & 0x0f) as u8,
    )
}

/// The invariant of a walk state. Past the start, the lowest count is the current
/// one and the best bytes are the current bytes, the current count is at most the
/// starting one, and the acceptances form a chain from the starting count to the
/// current one in which every acceptance strictly lowers the count.
pub open spec fn walk_inv<T>(m: WalkModel<T>) -> bool {
    &&& m.shifts.len() * (2 * m.cur.len()) + m.cfg.phase2_trials < usize::MAX
    &&& m.cfg.phase2_trials > 0 ==> m.cur.len() > 0
    &&& m.shifts.len() > 0 ==> 2 * m.cur.len() + m.gold_enc.len() <= usize::MAX
    &&& m.shifts.len() <= m.gold_enc.len()
    &&& forall|s: int| 0 <= s < m.shifts.len() ==> #[trigger] m.shifts[s] < m.gold_enc.len()
    &&& m.p1_accepts + m.p2_accepts == m.details.len()
    &&& m.p1_accepts <= m.total_p1
    &&& m.phase == WalkPhase::Shift ==> m.p1_accepts + 1 <= m.total_p1
    &&& m.p2_accepts <= m.ti
    &&& m.pending.len() == m.cur.len()
    &&& m.ti <= m.cfg.phase2_trials
    &&& m.phase == WalkPhase::Shift ==> m.total_p1 <= m.si * (2 * m.cur.len()) + m.ci + 1
    &&& (m.phase == WalkPhase::Random || m.phase == WalkPhase::Finished) ==> m.total_p1
        <= m.shifts.len() * (2 * m.cur.len())
    &&& m.shifts.len() <= m.cfg.top_k_shifts
    &&& m.phase == WalkPhase::Shift ==> m.total_p1 <= m.si * m.cfg.cands_per_shift + m.ci + 1
    &&& (m.phase == WalkPhase::Random || m.phase == WalkPhase::Finished) ==> m.total_p1
        <= m.shifts.len() * m.cfg.cands_per_shift
    &&& m.si <= m.shifts.len()
    &&& m.phase == WalkPhase::Start ==> m.details.len() == 0 && m.total_p1 == 0 && m.si == 0
        && m.ci == 0 && m.ti == 0 && m.pending == m.cur
    &&& m.phase != WalkPhase::Start ==> {
        &&& m.h_min == m.h_cur
        &&& m.best == m.cur
        &&& m.h_cur <= m.h_start
        &&& m.details.len() == 0 ==> m.h_cur == m.h_start
        &&& m.details.len() > 0 ==> m.details[0].2 == m.h_start && m.details.last().3 == m.h_cur
        &&& forall|j: int| 0 <= j < m.details.len() ==> #[trigger] m.details[j].3 < m.details[j].2
        &&& forall|j: int|
            0 < j < m.details.len() ==> #[trigger] m.details[j].2 == m.details[j - 1].3
    }
    &&& m.phase == WalkPhase::Shift ==> {
        &&& m.si < m.shifts.len()
        &&& m.ci < m.cands.len()
        &&& m.cands.len() <= 2 * m.cur.len()
        &&& m.cands.len() <= m.cfg.cands_per_shift
        &&& m.ti == 0
        &&& m.pending == set_nibble(m.cur, m.cands[m.ci as int].0 as int, m.cands[m.ci as int].1)
    }
    &&& m.phase == WalkPhase::Random ==> m.ti < m.cfg.phase2_trials && m.si == m.shifts.len()
        && m.ci == 0
    &&& m.phase == WalkPhase::Finished ==> m.si == m.shifts.len() && m.ci == 0
}

/// After leaving phase 1 with `f.cur`: the first random trial `t` when there is one
/// (`pending` is the mutation of the current bytes and the generator moved three
/// steps), else the end.
pub open spec fn random_entry<T>(f: WalkModel<T>, rng0: u64, t: int) -> bool {
    if t < f.cfg.phase2_trials {
        &&& f.phase == WalkPhase::Random
        &&& f.ti == t
        &&& f.rng == lcg_iter(rng0, 3)
        &&& f.pending == mutation(rng0, f.cur)
    } else {
        &&& f.phase == WalkPhase::Finished
        &&& f.rng == rng0
    }
}

/// Scanning the shifts from `from` with the current bytes: the first shift with
/// an edit, with its edits and the first edit pending, one more edit tried; or,
/// when no shift from `from` on has an edit, phase 2 from trial 0.
pub open spec fn shift_scan<S: WalkStrategy>(
    f: WalkModel<S::Scalar>,
    from: int,
    total0: usize,
    rng0: u64,
) -> bool {
    if f.phase == WalkPhase::Shift {
        &&& from <= f.si < f.shifts.len()
        &&& forall|s: int|
            from <= s < f.si ==> (#[trigger] S::spec_candidates(
                f.cur,
                f.gold_enc,
                f.shifts[s] as int,
                f.cfg.cands_per_shift as int,
            )).len() == 0
        &&& f.cands == S::spec_candidates(
            f.cur,
            f.gold_enc,
            f.shifts[f.si as int] as int,
            f.cfg.cands_per_shift as int,
        )
        &&& f.ci == 0
        &&& f.total_p1 == total0 + 1
        &&& f.rng == rng0
    } else {
        &&& forall|s: int|
            from <= s < f.shifts.len() ==> (#[trigger] S::spec_candidates(
                f.cur,
                f.gold_enc,
                f.shifts[s] as int,
                f.cfg.cands_per_shift as int,
            )).len() == 0
        &&& f.total_p1 == total0
        &&& random_entry(f, rng0, 0)
    }
}

/// The counts after the first `k` acceptances strictly decrease and lie below
/// the starting count.
proof fn lemma_chain_prefix<T>(m: WalkModel<T>, k: int)
    requires
        walk_inv(m),
        m.phase != WalkPhase::Start,
        0 <= k <= m.details.len(),
    ensures
        forall|j: int| 0 <= j < k ==> #[trigger] m.details[j].3 < m.h_start,
        forall|i: int, j: int|
            0 <= i < j < k ==> #[trigger] m.details[j].3 < #[trigger] m.details[i].3,
    decreases k,
{
    if k > 0 {
        lemma_chain_prefix(m, k - 1);
        let j = k - 1;
        assert(m.details[j].3 < m.details[j].2);
        if j > 0 {
            assert(m.details[j].2 == m.details[j - 1].3);
        }
    }
}

/// Each of the first `k` acceptances lowers the count by at least one: the count
/// after acceptance `k - 1` is at most the starting count less `k`.
proof fn lemma_chain_drop<T>(m: WalkModel<T>, k: int)
    requires
        walk_inv(m),
        m.phase != WalkPhase::Start,
        0 <= k <= m.details.len(),
    ensures
        k > 0 ==> m.details[k - 1].3 + k <= m.h_start,
    decreases k,
{
    if k > 1 {
        lemma_chain_drop(m, k - 1);
        assert(m.details[k - 1].3 < m.details[k - 1].2);
        assert(m.details[k - 1].2 == m.details[k - 2].3);
    } else if k == 1 {
        assert(m.details[0].3 < m.details[0].2);
    }
}

/// Law: past the start, every accepted edit or mutation lowers the error count,
/// so the counts after the acceptances strictly decrease, each lies below the
/// starting count, and the lowest count reached is at most the starting one.
pub proof fn lemma_walk_descent<T>(m: WalkModel<T>)
    requires
        walk_inv(m),
        m.phase != WalkPhase::Start,
    ensures
        m.h_min <= m.h_start,
        forall|j: int| 0 <= j < m.details.len() ==> #[trigger] m.details[j].3 < m.h_start,
        forall|i: int, j: int|
            0 <= i < j < m.details.len() ==> #[trigger] m.details[j].3 < #[trigger] m.details[i].3,
{
    lemma_chain_prefix(m, m.details.len() as int);
}

/// A running walk over the scalar field `S`.
pub struct GoldWalk<S: WalkStrategy> {
    cfg: WalkConfig,
    gold_enc: Vec<S::Scalar>,
    xcorr: Vec<i64>,
    top_shifts: Vec<usize>,
    xcorr_peak: i64,
    k_star: usize,
    rng: Lcg64,
    h_start: u32,
    cur: Vec<u8>,
    h_cur: u32,
    h_min: u32,
    best: Vec<u8>,
    p1_accepts: usize,
    p2_accepts: usize,
    total_p1: usize,
    details: Vec<(usize, String, u32, u32)>,
    phase: WalkPhase,
    si: usize,
    ci: usize,
    ti: usize,
    cands: Vec<(usize, u8)>,
    pending: Vec<u8>,
}

/// The views of acceptance records.
pub open spec fn detail_views(d: Seq<(usize, String, u32, u32)>) -> Seq<(usize, Seq<char>, u32, u32)> {
    d.map_values(|t: (usize, String, u32, u32)| (t.0, t.1@, t.2, t.3))
}

impl<S: WalkStrategy> GoldWalk<S> {
    /// The state as mathematical values.
    pub closed spec fn model(&self) -> WalkModel<S::Scalar> {
        WalkModel {
            cfg: self.cfg,
            gold_enc: self.gold_enc@,
            xcorr: self.xcorr@,
            shifts: self.top_shifts@,
            xcorr_peak: self.xcorr_peak,
            k_star: self.k_star,
            rng: self.rng@,
            h_start: self.h_start,
            cur: self.cur@,
            h_cur: self.h_cur,
            h_min: self.h_min,
            best: self.best@,
            p1_accepts: self.p1_accepts,
            p2_accepts: self.p2_accepts,
            total_p1: self.total_p1,
            details: detail_views(self.details@),
            phase: self.phase,
            si: self.si,
            ci: self.ci,
            ti: self.ti,
            cands: self.cands@,
            pending: self.pending@,
        }
    }

    /// The walk's invariant.
    pub open spec fn inv(&self) -> bool {
        walk_inv(self.model())
    }

    /// Starts a walk from `buggy` towards `gold`: encodes both, correlates them,
    /// ranks the shifts and seeds the generator. The first bytes to count are
    /// `buggy` itself.
    pub fn start(buggy: &[u8], gold: &[u8], cfg: &WalkConfig) -> (r: (Self, Vec<u8>))
        requires
            xcorr_fits(S::scalars(S::spec_encode(buggy@)), S::scalars(S::spec_encode(gold@))),
            cfg.top_k_shifts > 0,
            4 * buggy@.len() * gold@.len() + cfg.phase2_trials < usize::MAX,
            cfg.phase2_trials > 0 ==> buggy@.len() > 0,
        ensures
            r.0.inv(),
            r.1@ == buggy@,
            r.0.model().phase == WalkPhase::Start,
            r.0.model().cfg == *cfg,
            r.0.model().cur == buggy@,
            r.0.model().gold_enc == S::spec_encode(gold@),
            ints_i64(r.0.model().xcorr) == circ_xcorr(
                S::scalars(S::spec_encode(buggy@)),
                S::scalars(S::spec_encode(gold@)),
            ),
            r.0.model().shifts.len() == (if cfg.top_k_shifts <= r.0.model().xcorr.len() {
                cfg.top_k_shifts as int
            } else {
                r.0.model().xcorr.len() as int
            }),
            forall|t: int, u: int|
                0 <= t < u < r.0.model().shifts.len() ==> shift_before(
                    r.0.model().xcorr,
                    #[trigger] r.0.model().shifts[t] as int,
                    #[trigger] r.0.model().shifts[u] as int,
                ),
            forall|j: int, t: int|
                0 <= j < r.0.model().xcorr.len() && 0 <= t < r.0.model().shifts.len()
                    && !r.0.model().shifts.contains(j as usize) ==> #[trigger] shift_before(
                    r.0.model().xcorr,
                    r.0.model().shifts[t] as int,
                    j,
                ),
            r.0.model().k_star == last_argmax(r.0.model().xcorr, r.0.model().xcorr.len() as int),
            r.0.model().xcorr_peak == (if r.0.model().xcorr.len() > 0 {
                r.0.model().xcorr[r.0.model().k_star as int]
            } else {
                0
            }),
            r.0.model().rng == cfg.seed.wrapping_add(1),
    {
        let a = S::encode(buggy);
        let b = S::encode(gold);
        let xcorr = S::xcorr(&a, &b);
        assert(xcorr@.len() == circ_xcorr(S::scalars(a@), S::scalars(b@)).len());
        let mut k_star: usize = 0;
        let mut i: usize = 1;
        while i < xcorr.len()
            invariant
                1 <= i <= xcorr@.len() || (xcorr@.len() == 0 && i == 1),
                k_star == last_argmax(xcorr@, i as int),
                k_star < i,
            decreases xcorr@.len() - i,
        {
            if xcorr[i] >= xcorr[k_star] {
                k_star = i;
            }
            i = i + 1;
        }
        let xcorr_peak = if xcorr.len() > 0 {
            xcorr[k_star]
        } else {
            0
        };
        let top_shifts = top_k_shifts(&xcorr, cfg.top_k_shifts);
        let rng = Lcg64::new(cfg.seed);
        let cur = copy_bytes(buggy);
        let pending = copy_bytes(buggy);
        let best = copy_bytes(buggy);
        let first = copy_bytes(buggy);
        let w = GoldWalk {
            cfg: *cfg,
            gold_enc: b,
            xcorr,
            top_shifts,
            xcorr_peak,
            k_star,
            rng,
            h_start: 0,
            cur,
            h_cur: 0,
            h_min: 0,
            best,
            p1_accepts: 0,
            p2_accepts: 0,
            total_p1: 0,
            details: Vec::new(),
            phase: WalkPhase::Start,
            si: 0,
            ci: 0,
            ti: 0,
            cands: Vec::new(),
            pending,
        };
        assert(detail_views(w.details@) =~= seq![]);
        proof {
            let sl = w.top_shifts@.len();
            let gl = gold@.len();
            let bl = buggy@.len();
            assert(sl * (2 * bl) + cfg.phase2_trials < usize::MAX) by (nonlinear_arith)
                requires
                    sl <= 2 * gl,
                    4 * bl * gl + cfg.phase2_trials < usize::MAX,
            ;
            if bl >= 1 && gl >= 1 {
                assert(2 * bl + 2 * gl <= 4 * bl * gl) by (nonlinear_arith)
                    requires
                        bl >= 1,
                        gl >= 1,
                ;
            }
        }
        (w, first)
    }

    /// The label of a phase-1 acceptance at shift `k`.
    fn p1_label(k: usize) -> (r: String)
        ensures
            r@ == phase1_label(S::spec_label(), k),
    {
        let mut s = String::from_str(S::phase1_label_prefix());
        push_char(&mut s, '(');
        push_char(&mut s, 'k');
        push_char(&mut s, '=');
        push_decimal(&mut s, k as u64);
        push_char(&mut s, ')');
        assert(s@ =~= phase1_label(S::spec_label(), k));
        s
    }

    /// Leaves phase 1: the first random trial `t` when there is one, else the end.
    fn enter_random(&mut self, t: usize)
        requires
            t <= old(self).cfg.phase2_trials,
            old(self).cfg.phase2_trials > 0 ==> old(self).cur@.len() > 0,
        ensures
            random_entry(final(self).model(), old(self).rng@, t as int),
            final(self).si == old(self).top_shifts@.len(),
            final(self).ci == 0,
            final(self).cfg == old(self).cfg,
            final(self).gold_enc == old(self).gold_enc,
            final(self).xcorr == old(self).xcorr,
            final(self).top_shifts == old(self).top_shifts,
            final(self).xcorr_peak == old(self).xcorr_peak,
            final(self).k_star == old(self).k_star,
            final(self).h_start == old(self).h_start,
            final(self).cur == old(self).cur,
            final(self).h_cur == old(self).h_cur,
            final(self).h_min == old(self).h_min,
            final(self).best == old(self).best,
            final(self).p1_accepts == old(self).p1_accepts,
            final(self).p2_accepts == old(self).p2_accepts,
            final(self).total_p1 == old(self).total_p1,
            final(self).details == old(self).details,
            final(self).cands == old(self).cands,
            t < old(self).cfg.phase2_trials ==> final(self).pending@.len() == old(self).cur@.len(),
            t >= old(self).cfg.phase2_trials ==> final(self).pending == old(self).pending,
            final(self).ti == t,
    {
        self.si = self.top_shifts.len();
        self.ci = 0;
        self.ti = t;
        if t < self.cfg.phase2_trials {
            let (cand, _, _, _) = nibble_mutate_rng(&mut self.rng, &self.cur);
            self.phase = WalkPhase::Random;
            self.ti = t;
            self.pending = cand;
        } else {
            self.phase = WalkPhase::Finished;
        }
    }

    /// Scans the shifts from `from` for the first one with an edit and makes its
    /// first edit pending; without one, leaves phase 1.
    fn scan_shifts(&mut self, from: usize)
        requires
            from < old(self).top_shifts@.len() ==> 2 * old(self).cur@.len() + old(self).gold_enc@.len()
                <= usize::MAX,
            old(self).top_shifts@.len() * (2 * old(self).cur@.len()) + old(self).cfg.phase2_trials
                < usize::MAX,
            forall|s: int|
                0 <= s < old(self).top_shifts@.len() ==> #[trigger] old(self).top_shifts@[s]
                    < old(self).gold_enc@.len(),
            from <= old(self).top_shifts@.len(),
            old(self).total_p1 <= from * (2 * old(self).cur@.len()),
            old(self).total_p1 <= from * old(self).cfg.cands_per_shift,
            old(self).cfg.phase2_trials > 0 ==> old(self).cur@.len() > 0,
        ensures
            shift_scan::<S>(final(self).model(), from as int, old(self).total_p1, old(self).rng@),
            final(self).cfg == old(self).cfg,
            final(self).gold_enc == old(self).gold_enc,
            final(self).xcorr == old(self).xcorr,
            final(self).top_shifts == old(self).top_shifts,
            final(self).xcorr_peak == old(self).xcorr_peak,
            final(self).k_star == old(self).k_star,
            final(self).h_start == old(self).h_start,
            final(self).cur == old(self).cur,
            final(self).h_cur == old(self).h_cur,
            final(self).h_min == old(self).h_min,
            final(self).best == old(self).best,
            final(self).p1_accepts == old(self).p1_accepts,
            final(self).p2_accepts == old(self).p2_accepts,
            final(self).details == old(self).details,
            final(self).phase == WalkPhase::Shift ==> {
                &&& final(self).si < final(self).top_shifts@.len()
                &&& final(self).ci < final(self).cands@.len()
                &&& final(self).cands@.len() <= 2 * final(self).cur@.len()
                &&& final(self).ti == 0
                &&& final(self).total_p1 <= final(self).si * (2 * final(self).cur@.len()) + 1
                &&& final(self).cands@.len() <= final(self).cfg.cands_per_shift
                &&& final(self).total_p1 <= final(self).si * final(self).cfg.cands_per_shift + 1
                &&& final(self).pending@ == set_nibble(
                    final(self).cur@,
                    final(self).cands@[0].0 as int,
                    final(self).cands@[0].1,
                )
            },
            final(self).phase != WalkPhase::Shift ==> final(self).total_p1 <= final(self).top_shifts@.len()
                * (2 * final(self).cur@.len()),
            final(self).phase != WalkPhase::Shift ==> final(self).total_p1 <= final(self).top_shifts@.len()
                * final(self).cfg.cands_per_shift,
            final(self).phase == WalkPhase::Random ==> final(self).ti == 0,
            final(self).phase != WalkPhase::Shift ==> final(self).ti == 0,
            final(self).phase == WalkPhase::Finished ==> final(self).pending == old(self).pending,
            final(self).phase == WalkPhase::Random ==> final(self).pending@.len() == final(self).cur@.len(),
            final(self).phase != WalkPhase::Shift ==> final(self).si == final(self).top_shifts@.len()
                && final(self).ci == 0,
    {
        let ghost m0 = self.model();
        let mut s = from;
        let mut found: Option<(usize, Vec<(usize, u8)>)> = None;
        while s < self.top_shifts.len()
            invariant_except_break
                found.is_none(),
            invariant
                from <= s <= self.top_shifts@.len(),
                m0 == self.model(),
                s < self.top_shifts@.len() ==> 2 * self.cur@.len() + self.gold_enc@.len() <= usize::MAX,
                forall|q: int|
                    0 <= q < self.top_shifts@.len() ==> #[trigger] self.top_shifts@[q]
                        < self.gold_enc@.len(),
                forall|q: int|
                    from <= q < s ==> (#[trigger] S::spec_candidates(
                        m0.cur,
                        m0.gold_enc,
                        m0.shifts[q] as int,
                        m0.cfg.cands_per_shift as int,
                    )).len() == 0,
            ensures
                found matches Some(p) ==> {
                    &&& p.0 == s
                    &&& s < self.top_shifts@.len()
                    &&& p.1@ == S::spec_candidates(
                        m0.cur,
                        m0.gold_enc,
                        m0.shifts[s as int] as int,
                        m0.cfg.cands_per_shift as int,
                    )
                    &&& 0 < p.1@.len() <= 2 * m0.cur.len()
                    &&& p.1@.len() <= m0.cfg.cands_per_shift
                },
                found is None ==> s == self.top_shifts@.len(),
                from <= s <= self.top_shifts@.len(),
                forall|q: int|
                    from <= q < s ==> (#[trigger] S::spec_candidates(
                        m0.cur,
                        m0.gold_enc,
                        m0.shifts[q] as int,
                        m0.cfg.cands_per_shift as int,
                    )).len() == 0,
            decreases self.top_shifts@.len() - s,
        {
            let k = self.top_shifts[s];
            let cands = S::p1_candidates(&self.cur, &self.gold_enc, k, self.cfg.cands_per_shift);
            if cands.len() > 0 {
                found = Some((s, cands));
                break;
            }
            s = s + 1;
        }
        match found {
            Some(p) => {
                let (fs, cands) = p;
                let (nib_idx, new_nib) = cands[0];
                let pending = apply_nib_pos(&self.cur, nib_idx, new_nib);
                proof {
                    let c = 2 * self.cur@.len();
                    let n = self.top_shifts@.len();
                    assert(from * c <= fs * c) by (nonlinear_arith)
                        requires
                            from <= fs,
                            c >= 0,
                    ;
                    assert(fs * c + 1 <= n * c) by (nonlinear_arith)
                        requires
                            fs < n,
                            c >= 1,
                    ;
                    let cp = self.cfg.cands_per_shift as int;
                    assert(from * cp <= fs * cp) by (nonlinear_arith)
                        requires
                            from <= fs,
                            cp >= 0,
                    ;
                }
                self.total_p1 = self.total_p1 + 1;
                self.phase = WalkPhase::Shift;
                self.si = fs;
                self.ci = 0;
                self.ti = 0;
                self.cands = cands;
                self.pending = pending;
                return;
            },
            None => {},
        }
        proof {
            let c = 2 * self.cur@.len();
            let n = self.top_shifts@.len();
            assert(from * c <= n * c) by (nonlinear_arith)
                requires
                    from <= n,
                    c >= 0,
            ;
            let cp = self.cfg.cands_per_shift as int;
            assert(from * cp <= n * cp) by (nonlinear_arith)
                requires
                    from <= n,
                    cp >= 0,
            ;
        }
        self.enter_random(0);
        assert(self.model().cur == m0.cur && self.model().gold_enc == m0.gold_enc
            && self.model().shifts == m0.shifts && self.model().cfg == m0.cfg);
    }

    /// Takes the error count `h` of the pending bytes and returns the next bytes
    /// to count, or `None` once the walk is over.
    ///
    /// The first count is that of the starting bytes. Later, a count below the
    /// current one accepts the pending bytes and records the acceptance; after a
    /// phase-1 acceptance down to zero errors, phase 1 ends. Phase 1 then moves to
    /// the next edit of the shift, or to the next shift with an edit (its edits
    /// computed from the current bytes), and then to phase 2, which runs its
    /// random trials one by one.
    pub fn step(&mut self, h: u32) -> (r: Option<Vec<u8>>)
        requires
            old(self).inv(),
            old(self).model().phase != WalkPhase::Finished,
        ensures
            final(self).inv(),
            final(self).model().cfg == old(self).model().cfg,
            final(self).model().gold_enc == old(self).model().gold_enc,
            final(self).model().xcorr == old(self).model().xcorr,
            final(self).model().shifts == old(self).model().shifts,
            final(self).model().xcorr_peak == old(self).model().xcorr_peak,
            final(self).model().k_star == old(self).model().k_star,
            old(self).model().phase == WalkPhase::Start ==> {
                &&& final(self).model().h_start == h
                &&& final(self).model().h_cur == h
                &&& final(self).model().cur == old(self).model().cur
                &&& final(self).model().details == old(self).model().details
                &&& final(self).model().p1_accepts == old(self).model().p1_accepts
                &&& final(self).model().p2_accepts == old(self).model().p2_accepts
                &&& shift_scan::<S>(final(self).model(), 0, old(self).model().total_p1, old(self).model().rng)
            },
            old(self).model().phase != WalkPhase::Start ==> final(self).model().h_start == old(
                self,
            ).model().h_start,
            old(self).model().phase != WalkPhase::Start && h < old(self).model().h_cur ==> {
                &&& final(self).model().cur == old(self).model().pending
                &&& final(self).model().h_cur == h
                &&& final(self).model().details == old(self).model().details.push(
                    if old(self).model().phase == WalkPhase::Shift {
                        (
                            old(self).model().total_p1,
                            phase1_label(
                                S::spec_label(),
                                old(self).model().shifts[old(self).model().si as int],
                            ),
                            old(self).model().h_cur,
                            h,
                        )
                    } else {
                        (
                            (old(self).model().total_p1 + old(self).model().ti + 1) as usize,
                            phase2_label(),
                            old(self).model().h_cur,
                            h,
                        )
                    },
                )
                &&& old(self).model().phase == WalkPhase::Shift ==> final(self).model().p1_accepts
                    == old(self).model().p1_accepts + 1 && final(self).model().p2_accepts == old(
                    self,
                ).model().p2_accepts
                &&& old(self).model().phase == WalkPhase::Random ==> final(self).model().p2_accepts
                    == old(self).model().p2_accepts + 1 && final(self).model().p1_accepts == old(
                    self,
                ).model().p1_accepts
            },
            old(self).model().phase != WalkPhase::Start && h >= old(self).model().h_cur ==> {
                &&& final(self).model().cur == old(self).model().cur
                &&& final(self).model().h_cur == old(self).model().h_cur
                &&& final(self).model().details == old(self).model().details
                &&& final(self).model().p1_accepts == old(self).model().p1_accepts
                &&& final(self).model().p2_accepts == old(self).model().p2_accepts
            },
            old(self).model().phase == WalkPhase::Shift && h < old(self).model().h_cur && h == 0
                ==> final(self).model().total_p1 == old(self).model().total_p1 && random_entry(
                final(self).model(),
                old(self).model().rng,
                0,
            ),
            old(self).model().phase == WalkPhase::Shift && !(h < old(self).model().h_cur && h == 0)
                && old(self).model().ci + 1 < old(self).model().cands.len() ==> {
                &&& final(self).model().phase == WalkPhase::Shift
                &&& final(self).model().si == old(self).model().si
                &&& final(self).model().ci == old(self).model().ci + 1
                &&& final(self).model().cands == old(self).model().cands
                &&& final(self).model().total_p1 == old(self).model().total_p1 + 1
                &&& final(self).model().rng == old(self).model().rng
            },
            old(self).model().phase == WalkPhase::Shift && !(h < old(self).model().h_cur && h == 0)
                && old(self).model().ci + 1 >= old(self).model().cands.len() ==> shift_scan::<S>(
                final(self).model(),
                old(self).model().si + 1,
                old(self).model().total_p1,
                old(self).model().rng,
            ),
            old(self).model().phase == WalkPhase::Random ==> final(self).model().total_p1 == old(
                self,
            ).model().total_p1 && random_entry(
                final(self).model(),
                old(self).model().rng,
                old(self).model().ti + 1,
            ),
            r is None <==> final(self).model().phase == WalkPhase::Finished,
            r matches Some(b) ==> b@ == final(self).model().pending,
    {
        let ghost o = self.model();
        match self.phase {
            WalkPhase::Start => {
                self.h_start = h;
                self.h_cur = h;
                self.h_min = h;
                self.best = copy_bytes(&self.cur);
                self.scan_shifts(0);
                proof {
                    if self.phase == WalkPhase::Shift {
                        assert(self.model().pending == set_nibble(
                            self.model().cur,
                            self.model().cands[self.model().ci as int].0 as int,
                            self.model().cands[self.model().ci as int].1,
                        ));
                    }
                }
            },
            WalkPhase::Shift => {
                let mut stop = false;
                if h < self.h_cur {
                    let k = self.top_shifts[self.si];
                    let label = Self::p1_label(k);
                    let ghost lv = label@;
                    self.details.push((self.total_p1, label, self.h_cur, h));
                    assert(detail_views(self.details@) =~= o.details.push(
                        (o.total_p1, lv, o.h_cur, h),
                    ));
                    let c = copy_bytes(&self.pending);
                    self.cur = c;
                    self.h_cur = h;
                    self.p1_accepts = self.p1_accepts + 1;
                    if h < self.h_min {
                        self.h_min = h;
                        self.best = copy_bytes(&self.cur);
                    }
                    if self.h_cur == 0 {
                        stop = true;
                    }
                }
                proof {
                    let c = 2 * self.cur@.len();
                    assert(self.si * c + self.ci + 1 <= (self.si + 1) * c) by (nonlinear_arith)
                        requires
                            self.ci < self.cands@.len(),
                            self.cands@.len() <= c,
                    ;
                    assert((self.si + 1) * c <= self.top_shifts@.len() * c) by (nonlinear_arith)
                        requires
                            self.si < self.top_shifts@.len(),
                            c >= 0,
                    ;
                    let cp = self.cfg.cands_per_shift as int;
                    assert(self.si * cp + self.ci + 1 <= (self.si + 1) * cp) by (nonlinear_arith)
                        requires
                            self.ci < self.cands@.len(),
                            self.cands@.len() <= cp,
                    ;
                    assert((self.si + 1) * cp <= self.top_shifts@.len() * cp) by (nonlinear_arith)
                        requires
                            self.si < self.top_shifts@.len(),
                            cp >= 0,
                    ;
                }
                if stop {
                    self.enter_random(0);
                } else if self.ci + 1 < self.cands.len() {
                    self.ci = self.ci + 1;
                    self.total_p1 = self.total_p1 + 1;
                    let (ni, nn) = self.cands[self.ci];
                    self.pending = apply_nib_pos(&self.cur, ni, nn);
                } else {
                    let next = self.si + 1;
                    self.scan_shifts(next);
                    proof {
                        if self.phase == WalkPhase::Shift {
                            assert(self.model().pending == set_nibble(
                                self.model().cur,
                                self.model().cands[self.model().ci as int].0 as int,
                                self.model().cands[self.model().ci as int].1,
                            ));
                        }
                    }
                }
            },
            WalkPhase::Random => {
                if h < self.h_cur {
                    let label = String::from_str("Phase2-random");
                    let ghost lv = label@;
                    let idx = self.total_p1 + self.ti + 1;
                    self.details.push((idx, label, self.h_cur, h));
                    assert(detail_views(self.details@) =~= o.details.push((idx, lv, o.h_cur, h)));
                    let c = copy_bytes(&self.pending);
                    self.cur = c;
                    self.h_cur = h;
                    self.p2_accepts = self.p2_accepts + 1;
                    if h < self.h_min {
                        self.h_min = h;
                        self.best = copy_bytes(&self.cur);
                    }
                }
                let next = self.ti + 1;
                self.enter_random(next);
            },
            WalkPhase::Finished => {},
        }
        if self.phase == WalkPhase::Finished {
            None
        } else {
            Some(copy_bytes(&self.pending))
        }
    }

    /// The outcome of a finished walk. Its lowest count is at most its starting one,
    /// less one for each acceptance; phase 1 tried at most `cands_per_shift` edits at
    /// each of at most `top_k_shifts` shifts, and phase 2 accepted at most once per trial.
    pub fn finish(self) -> (r: WalkResult)
        requires
            self.inv(),
            self.model().phase == WalkPhase::Finished,
        ensures
            r.h_start == self.model().h_start,
            r.h_min == self.model().h_min,
            r.h_min <= r.h_start,
            r.h_min + r.p1_accepts + r.p2_accepts <= r.h_start,
            r.p1_trials <= self.model().cfg.top_k_shifts * self.model().cfg.cands_per_shift,
            r.p2_accepts <= self.model().cfg.phase2_trials,
            r.p1_accepts == self.model().p1_accepts,
            r.p2_accepts == self.model().p2_accepts,
            r.p1_trials == self.model().total_p1,
            r.best_bytes@ == self.model().best,
            r.xcorr_peak == self.model().xcorr_peak,
            r.k_star == self.model().k_star,
            detail_views(r.accept_details@) == self.model().details,
    {
        proof {
            let m = self.model();
            lemma_chain_drop(m, m.details.len() as int);
            let cp = m.cfg.cands_per_shift as int;
            assert(m.shifts.len() * cp <= m.cfg.top_k_shifts * cp) by (nonlinear_arith)
                requires
                    m.shifts.len() <= m.cfg.top_k_shifts,
                    cp >= 0,
            ;
        }
        WalkResult {
            h_start: self.h_start,
            h_min: self.h_min,
            p1_accepts: self.p1_accepts,
            p2_accepts: self.p2_accepts,
            p1_trials: self.total_p1,
            best_bytes: self.best,
            xcorr_peak: self.xcorr_peak,
            k_star: self.k_star,
            accept_details: self.details,
        }
    }
}

} // verus!
