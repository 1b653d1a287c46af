//! Discrete gradient descent: greedy one-bit-flip local search over bit
//! vectors with an integer loss.
//!
//! The descent operator moves a state `x` to the best strictly improving
//! one-bit flip of `x` (the first one among equally good flips), and leaves a
//! local minimum where it is.
use vstd::prelude::*;

verus! {

/// A state of the search: a bit vector together with the loss landscape it lives in.
///
/// `bits_view` is the current bit vector and `loss_of(x)` the loss the state's
/// landscape gives to any bit vector `x`. Flipping a bit changes the bit vector
/// only, never the landscape. `wf` is the implementor's own well-formedness,
/// which flipping keeps.
pub trait DgdState: Clone + Sized {
    /// The implementor's well-formedness.
    spec fn wf(&self) -> bool;

    /// The current bit vector.
    spec fn bits_view(&self) -> Seq<bool>;

    /// The loss that this state's landscape gives to the bit vector `x`.
    spec fn loss_of(&self, x: Seq<bool>) -> int;

    /// Number of bits in this state; constant across `flip`.
    fn bits(&self) -> (n: usize)
        ensures
            n == self.bits_view().len(),
    ;

    /// Flips bit `i` in place.
    fn flip(&mut self, i: usize)
        requires
            old(self).wf(),
            i < old(self).bits_view().len(),
        ensures
            final(self).wf(),
            final(self).bits_view() == old(self).bits_view().update(
                i as int,
                !old(self).bits_view()[i as int],
            ),
            forall|x: Seq<bool>| #[trigger] final(self).loss_of(x) == old(self).loss_of(x),
    ;

    /// The loss of the current bit vector; smaller is better.
    fn score(&self) -> (r: i64)
        requires
            self.wf(),
        ensures
            r == self.loss_of(self.bits_view()),
    ;
}

/// `x` with bit `i` flipped.
pub open spec fn flip_bit(x: Seq<bool>, i: int) -> Seq<bool> {
    x.update(i, !x[i])
}

/// Two states give every bit vector the same loss.
pub open spec fn same_landscape<S: DgdState>(a: S, b: S) -> bool {
    forall|x: Seq<bool>| #[trigger] a.loss_of(x) == b.loss_of(x)
}

/// The loss, in the landscape of `s`, of `x` with bit `i` flipped.
pub open spec fn flip_loss<S: DgdState>(s: S, x: Seq<bool>, i: int) -> int {
    s.loss_of(flip_bit(x, i))
}

/// No single flip of `x` lowers the loss strictly.
pub open spec fn is_local_min_at<S: DgdState>(s: S, x: Seq<bool>) -> bool {
    forall|i: int| 0 <= i < x.len() ==> #[trigger] flip_loss(s, x, i) >= s.loss_of(x)
}

/// Flip `j` lowers the loss strictly, no flip is lower, and no earlier flip is as low.
pub open spec fn is_best_flip_at<S: DgdState>(s: S, x: Seq<bool>, j: int) -> bool {
    &&& 0 <= j < x.len()
    &&& flip_loss(s, x, j) < s.loss_of(x)
    &&& forall|i: int| 0 <= i < x.len() ==> flip_loss(s, x, j) <= #[trigger] flip_loss(s, x, i)
    &&& forall|i: int| 0 <= i < j ==> flip_loss(s, x, j) < #[trigger] flip_loss(s, x, i)
}

/// One step of the descent operator: the best strictly improving flip of `x`,
/// or `x` itself at a local minimum.
pub open spec fn dgd_step<S: DgdState>(s: S, x: Seq<bool>) -> Seq<bool> {
    if is_local_min_at(s, x) {
        x
    } else {
        flip_bit(x, choose|j: int| is_best_flip_at(s, x, j))
    }
}

/// `k` steps of the descent operator from `x`.
pub open spec fn dgd_iter<S: DgdState>(s: S, x: Seq<bool>, k: nat) -> Seq<bool>
    decreases k,
{
    if k == 0 {
        x
    } else {
        dgd_step(s, dgd_iter(s, x, (k - 1) as nat))
    }
}

/// Index of the first lowest flip among the first `n` flips of `x`.
spec fn first_lowest_flip<S: DgdState>(s: S, x: Seq<bool>, n: nat) -> int
    decreases n,
{
    if n <= 1 {
        0
    } else {
        let j = first_lowest_flip(s, x, (n - 1) as nat);
        if flip_loss(s, x, n - 1) < flip_loss(s, x, j) {
            n - 1
        } else {
            j
        }
    }
}

proof fn lemma_first_lowest_flip<S: DgdState>(s: S, x: Seq<bool>, n: nat)
    requires
        1 <= n,
    ensures
        0 <= first_lowest_flip(s, x, n) < n,
        forall|i: int|
            0 <= i < n ==> flip_loss(s, x, first_lowest_flip(s, x, n)) <= #[trigger] flip_loss(
                s,
                x,
                i,
            ),
        forall|i: int|
            0 <= i < first_lowest_flip(s, x, n) ==> flip_loss(s, x, first_lowest_flip(s, x, n))
                < #[trigger] flip_loss(s, x, i),
    decreases n,
{
    if n > 1 {
        lemma_first_lowest_flip(s, x, (n - 1) as nat);
    }
}

/// Away from a local minimum there is exactly one best flip.
pub proof fn lemma_best_flip_unique<S: DgdState>(s: S, x: Seq<bool>)
    requires
        !is_local_min_at(s, x),
    ensures
        exists|j: int| is_best_flip_at(s, x, j),
        forall|j1: int, j2: int|
            is_best_flip_at(s, x, j1) && is_best_flip_at(s, x, j2) ==> j1 == j2,
{
    let i0 = choose|i: int| 0 <= i < x.len() && !(#[trigger] flip_loss(s, x, i) >= s.loss_of(x));
    lemma_first_lowest_flip(s, x, x.len());
    let j = first_lowest_flip(s, x, x.len());
    assert(flip_loss(s, x, j) <= flip_loss(s, x, i0));
    assert(is_best_flip_at(s, x, j));
    assert forall|j1: int, j2: int|
        is_best_flip_at(s, x, j1) && is_best_flip_at(s, x, j2) implies j1 == j2 by {
        if j1 < j2 {
            assert(flip_loss(s, x, j2) < flip_loss(s, x, j1));
            assert(flip_loss(s, x, j1) <= flip_loss(s, x, j2));
        } else if j2 < j1 {
            assert(flip_loss(s, x, j1) < flip_loss(s, x, j2));
            assert(flip_loss(s, x, j2) <= flip_loss(s, x, j1));
        }
    }
}

/// Every step the descent takes away from a local minimum lowers the loss
/// strictly, and at a local minimum the descent stays put.
pub proof fn lemma_step_strictly_decreases<S: DgdState>(s: S, x: Seq<bool>)
    ensures
        !is_local_min_at(s, x) ==> s.loss_of(dgd_step(s, x)) < s.loss_of(x),
        is_local_min_at(s, x) ==> dgd_step(s, x) == x,
{
    if !is_local_min_at(s, x) {
        lemma_best_flip_unique(s, x);
    }
}

/// Law: each step away from a local minimum lowers the integer loss by at least
/// one, so after `k` such steps the loss is at most the starting loss minus `k`;
/// a descent from `x` therefore takes at most `loss(x) - min loss` steps.
pub proof fn lemma_descent_loss_bound<S: DgdState>(s: S, x: Seq<bool>, k: nat)
    requires
        forall|j: nat| j < k ==> !is_local_min_at(s, #[trigger] dgd_iter(s, x, j)),
    ensures
        s.loss_of(dgd_iter(s, x, k)) <= s.loss_of(x) - k,
    decreases k,
{
    if k > 0 {
        lemma_descent_loss_bound(s, x, (k - 1) as nat);
        lemma_step_strictly_decreases(s, dgd_iter(s, x, (k - 1) as nat));
        assert(!is_local_min_at(s, dgd_iter(s, x, (k - 1) as nat)));
    }
}

/// Tries every one-bit flip; if some flip lowers the score strictly, applies
/// the best one (the first among equals) and returns `true`. At a local
/// minimum the state is left unchanged and `false` is returned.
pub fn descend_one_step<S: DgdState>(s: &mut S) -> (moved: bool)
    requires
        old(s).wf(),
    ensures
        final(s).wf(),
        same_landscape(*final(s), *old(s)),
        final(s).bits_view() == dgd_step(*old(s), old(s).bits_view()),
        final(s).bits_view().len() == old(s).bits_view().len(),
        moved == !is_local_min_at(*old(s), old(s).bits_view()),
{
    let ghost s0 = *s;
    let ghost x0 = s.bits_view();
    let n = s.bits();
    let cur = s.score();
    let mut best_idx: Option<usize> = None;
    let mut best_score = cur;
    for i in 0..n
        invariant
            n == x0.len(),
            cur == s0.loss_of(x0),
            s.bits_view() == x0,
            s.wf(),
            same_landscape(*s, s0),
            best_idx is None ==> best_score == cur && forall|k: int|
                0 <= k < i ==> #[trigger] flip_loss(s0, x0, k) >= cur,
            best_idx matches Some(b) ==> {
                &&& b < i
                &&& best_score == flip_loss(s0, x0, b as int)
                &&& best_score < cur
                &&& forall|k: int| 0 <= k < i ==> best_score <= #[trigger] flip_loss(s0, x0, k)
                &&& forall|k: int| 0 <= k < b ==> best_score < #[trigger] flip_loss(s0, x0, k)
            },
    {
        s.flip(i);
        let sc = s.score();
        assert(sc == flip_loss(s0, x0, i as int));
        if sc < best_score {
            best_score = sc;
            best_idx = Some(i);
        }
        s.flip(i);
        assert(flip_bit(flip_bit(x0, i as int), i as int) =~= x0);
    }
    if let Some(i) = best_idx {
        s.flip(i);
        proof {
            assert(!is_local_min_at(s0, x0)) by {
                assert(flip_loss(s0, x0, i as int) < s0.loss_of(x0));
            }
            assert(is_best_flip_at(s0, x0, i as int));
            lemma_best_flip_unique(s0, x0);
        }
        true
    } else {
        false
    }
}

/// Repeats [`descend_one_step`] until the state is a local minimum or
/// `max_steps` steps were taken; returns the number of strictly improving
/// steps performed.
pub fn descend_until_local_min<S: DgdState>(s: &mut S, max_steps: usize) -> (steps: usize)
    requires
        old(s).wf(),
    ensures
        final(s).wf(),
        steps <= max_steps,
        same_landscape(*final(s), *old(s)),
        final(s).bits_view() == dgd_iter(*old(s), old(s).bits_view(), steps as nat),
        final(s).bits_view().len() == old(s).bits_view().len(),
        forall|k: nat|
            k < steps ==> !is_local_min_at(*old(s), #[trigger] dgd_iter(
                *old(s),
                old(s).bits_view(),
                k,
            )),
        steps < max_steps ==> is_local_min_at(*old(s), final(s).bits_view()),
{
    let ghost s0 = *s;
    let ghost x0 = s.bits_view();
    let mut k: usize = 0;
    let mut at_min = false;
    while k < max_steps && !at_min
        invariant
            k <= max_steps,
            s.wf(),
            same_landscape(*s, s0),
            s.bits_view() == dgd_iter(s0, x0, k as nat),
            s.bits_view().len() == x0.len(),
            forall|j: nat| j < k ==> !is_local_min_at(s0, #[trigger] dgd_iter(s0, x0, j)),
            at_min ==> is_local_min_at(s0, s.bits_view()),
        decreases max_steps - k, (if at_min { 0int } else { 1int }),
    {
        let ghost before = *s;
        let moved = descend_one_step(s);
        proof {
            lemma_landscape_step(s0, before, *s);
            lemma_step_strictly_decreases(s0, before.bits_view());
        }
        if moved {
            k = k + 1;
        } else {
            at_min = true;
        }
    }
    k
}

/// Two states sharing a landscape agree on every flip of `x`.
proof fn lemma_same_flip_losses<S: DgdState>(a: S, b: S, x: Seq<bool>)
    requires
        same_landscape(a, b),
    ensures
        a.loss_of(x) == b.loss_of(x),
        forall|i: int| #[trigger] flip_loss(a, x, i) == flip_loss(b, x, i),
        is_local_min_at(a, x) == is_local_min_at(b, x),
        forall|j: int| #[trigger] is_best_flip_at(a, x, j) == is_best_flip_at(b, x, j),
{
    assert(a.loss_of(x) == b.loss_of(x));
    assert forall|i: int| #[trigger] flip_loss(a, x, i) == flip_loss(b, x, i) by {
        assert(a.loss_of(flip_bit(x, i)) == b.loss_of(flip_bit(x, i)));
    }
    if is_local_min_at(a, x) {
        assert forall|i: int| 0 <= i < x.len() implies #[trigger] flip_loss(b, x, i) >= b.loss_of(
            x,
        ) by {
            assert(flip_loss(a, x, i) >= a.loss_of(x));
        }
    }
    if is_local_min_at(b, x) {
        assert forall|i: int| 0 <= i < x.len() implies #[trigger] flip_loss(a, x, i) >= a.loss_of(
            x,
        ) by {
            assert(flip_loss(b, x, i) >= b.loss_of(x));
        }
    }
    assert forall|j: int| #[trigger] is_best_flip_at(a, x, j) == is_best_flip_at(b, x, j) by {
        if is_best_flip_at(a, x, j) {
            assert forall|i: int| 0 <= i < x.len() implies flip_loss(b, x, j) <= #[trigger] flip_loss(
                b,
                x,
                i,
            ) by {
                assert(flip_loss(a, x, j) <= flip_loss(a, x, i));
            }
            assert forall|i: int| 0 <= i < j implies flip_loss(b, x, j) < #[trigger] flip_loss(
                b,
                x,
                i,
            ) by {
                assert(flip_loss(a, x, j) < flip_loss(a, x, i));
            }
        }
        if is_best_flip_at(b, x, j) {
            assert forall|i: int| 0 <= i < x.len() implies flip_loss(a, x, j) <= #[trigger] flip_loss(
                a,
                x,
                i,
            ) by {
                assert(flip_loss(b, x, j) <= flip_loss(b, x, i));
            }
            assert forall|i: int| 0 <= i < j implies flip_loss(a, x, j) < #[trigger] flip_loss(
                a,
                x,
                i,
            ) by {
                assert(flip_loss(b, x, j) < flip_loss(b, x, i));
            }
        }
    }
}

/// Two states sharing a landscape take the same descent step from `x`.
proof fn lemma_same_step<S: DgdState>(a: S, b: S, x: Seq<bool>)
    requires
        same_landscape(a, b),
    ensures
        dgd_step(a, x) == dgd_step(b, x),
        is_local_min_at(a, x) == is_local_min_at(b, x),
{
    lemma_same_flip_losses(a, b, x);
    if !is_local_min_at(a, x) {
        lemma_best_flip_unique(a, x);
        lemma_best_flip_unique(b, x);
        let ja = choose|j: int| is_best_flip_at(a, x, j);
        let jb = choose|j: int| is_best_flip_at(b, x, j);
        assert(is_best_flip_at(a, x, jb));
    }
}

/// Steps taken in one landscape are steps in any state sharing it.
proof fn lemma_landscape_step<S: DgdState>(s0: S, before: S, after: S)
    requires
        same_landscape(before, s0),
        same_landscape(after, before),
        after.bits_view() == dgd_step(before, before.bits_view()),
    ensures
        same_landscape(after, s0),
        after.bits_view() == dgd_step(s0, before.bits_view()),
        is_local_min_at(before, before.bits_view()) == is_local_min_at(s0, before.bits_view()),
{
    assert forall|x: Seq<bool>| #[trigger] after.loss_of(x) == s0.loss_of(x) by {
        assert(after.loss_of(x) == before.loss_of(x));
        assert(before.loss_of(x) == s0.loss_of(x));
    }
    lemma_same_step(before, s0, before.bits_view());
}

/// Number of positions below `n` where `x` and `t` differ.
pub open spec fn mismatches(x: Seq<bool>, t: Seq<bool>, n: int) -> nat
    decreases n,
{
    if n <= 0 {
        0
    } else {
        mismatches(x, t, n - 1) + (if x[n - 1] != t[n - 1] {
            1nat
        } else {
            0nat
        })
    }
}

/// Hamming distance between `x` and `t` over their common length.
pub open spec fn hamming(x: Seq<bool>, t: Seq<bool>) -> nat {
    mismatches(x, t, if x.len() <= t.len() {
        x.len() as int
    } else {
        t.len() as int
    })
}

/// Reference state: a bit vector whose loss is its Hamming distance to a fixed target.
///
/// The unique global minimum is the target itself, with loss 0.
#[derive(Clone, Debug)]
pub struct HammingState {
    state: Vec<bool>,
    target: Vec<bool>,
}

impl HammingState {
    /// The fixed target bit vector.
    pub closed spec fn target_view(&self) -> Seq<bool> {
        self.target@
    }

    /// Builds a state from a start and a target of equal length.
    pub fn new(state: Vec<bool>, target: Vec<bool>) -> (r: Self)
        requires
            state@.len() == target@.len(),
            state@.len() <= i64::MAX,
        ensures
            r.wf(),
            r.bits_view() == state@,
            r.target_view() == target@,
    {
        HammingState { state, target }
    }

    /// The current bit vector.
    pub fn state(&self) -> (r: &[bool])
        ensures
            r@ == self.bits_view(),
    {
        self.state.as_slice()
    }

    /// A well-formed state is as long as its target.
    pub proof fn lemma_wf_len(&self)
        requires
            self.wf(),
        ensures
            self.bits_view().len() == self.target_view().len(),
    {
    }

    /// Two well-formed states of one length that give every bit vector the same
    /// loss have the same target; so a descent, which keeps the landscape and the
    /// length, keeps the target.
    pub proof fn lemma_same_landscape_same_target(a: HammingState, b: HammingState)
        requires
            a.wf(),
            b.wf(),
            a.bits_view().len() == b.bits_view().len(),
            same_landscape(a, b),
        ensures
            a.target_view() == b.target_view(),
    {
        let t1 = a.target@;
        let t2 = b.target@;
        lemma_mismatches_self(t1, t1.len() as int);
        assert(a.loss_of(t1) == b.loss_of(t1));
        lemma_mismatches_zero(t1, t2, t1.len() as int);
        assert(t1 =~= t2);
    }

    /// The loss of this state is the Hamming distance to its target.
    pub proof fn lemma_loss_is_hamming(&self, x: Seq<bool>)
        ensures
            self.loss_of(x) == hamming(x, self.target_view()),
    {
    }
}

impl DgdState for HammingState {
    /// Start and target have equal length, and the distance fits the score type.
    closed spec fn wf(&self) -> bool {
        &&& self.state@.len() == self.target@.len()
        &&& self.state@.len() <= i64::MAX
    }

    closed spec fn bits_view(&self) -> Seq<bool> {
        self.state@
    }

    closed spec fn loss_of(&self, x: Seq<bool>) -> int {
        hamming(x, self.target@) as int
    }

    fn bits(&self) -> (n: usize) {
        self.state.len()
    }

    fn flip(&mut self, i: usize) {
        let b = self.state[i];
        self.state.set(i, !b);
    }

    fn score(&self) -> (r: i64) {
        let n = self.state.len();
        let mut count: usize = 0;
        for i in 0..n
            invariant
                n == self.state@.len(),
                n == self.target@.len(),
                count == mismatches(self.state@, self.target@, i as int),
                count <= i,
        {
            if self.state[i] != self.target[i] {
                count = count + 1;
            }
        }
        count as i64
    }
}

/// Flipping position `i` moves the Hamming distance by one: down if the bit
/// differed from the target, up otherwise.
pub proof fn lemma_hamming_flip(x: Seq<bool>, t: Seq<bool>, i: int)
    requires
        x.len() == t.len(),
        0 <= i < x.len(),
    ensures
        hamming(flip_bit(x, i), t) == (if x[i] != t[i] {
            hamming(x, t) - 1
        } else {
            hamming(x, t) + 1int
        }),
{
    lemma_mismatches_flip(x, t, i, x.len() as int);
}

proof fn lemma_mismatches_flip(x: Seq<bool>, t: Seq<bool>, i: int, n: int)
    requires
        x.len() == t.len(),
        0 <= i < x.len(),
        n <= x.len(),
    ensures
        mismatches(flip_bit(x, i), t, n) == (if n <= i {
            mismatches(x, t, n) as int
        } else if x[i] != t[i] {
            mismatches(x, t, n) - 1
        } else {
            mismatches(x, t, n) + 1int
        }),
    decreases n,
{
    if n > 0 {
        lemma_mismatches_flip(x, t, i, n - 1);
        if n - 1 == i {
            lemma_mismatches_prefix_at(x, t, i);
        }
    }
}

proof fn lemma_mismatches_prefix_at(x: Seq<bool>, t: Seq<bool>, i: int)
    requires
        x.len() == t.len(),
        0 <= i < x.len(),
    ensures
        x[i] != t[i] ==> mismatches(x, t, i + 1) >= 1,
{
}

/// A vector differs from itself nowhere.
proof fn lemma_mismatches_self(x: Seq<bool>, n: int)
    ensures
        mismatches(x, x, n) == 0,
    decreases n,
{
    if n > 0 {
        lemma_mismatches_self(x, n - 1);
    }
}

/// Zero distance over the whole length means the vectors are equal; positive
/// distance means some position differs.
proof fn lemma_mismatches_zero(x: Seq<bool>, t: Seq<bool>, n: int)
    requires
        x.len() == t.len(),
        0 <= n <= x.len(),
    ensures
        mismatches(x, t, n) == 0 ==> forall|i: int| 0 <= i < n ==> x[i] == t[i],
        mismatches(x, t, n) > 0 ==> exists|i: int| 0 <= i < n && x[i] != t[i],
    decreases n,
{
    if n > 0 {
        lemma_mismatches_zero(x, t, n - 1);
    }
}

/// From a vector at distance `d > 0` from the target, one descent step lands
/// at distance `d - 1`; at distance 0 the vector is the target and a local minimum.
pub proof fn lemma_hamming_step(h: HammingState, x: Seq<bool>)
    requires
        x.len() == h.target_view().len(),
    ensures
        hamming(x, h.target_view()) > 0 ==> !is_local_min_at(h, x) && hamming(
            dgd_step(h, x),
            h.target_view(),
        ) == hamming(x, h.target_view()) - 1 && dgd_step(h, x).len() == x.len(),
        hamming(x, h.target_view()) == 0 ==> is_local_min_at(h, x) && x == h.target_view(),
{
    let t = h.target_view();
    let d = hamming(x, t);
    lemma_mismatches_zero(x, t, x.len() as int);
    if d > 0 {
        let i0 = choose|i: int| 0 <= i < x.len() && x[i] != t[i];
        lemma_hamming_flip(x, t, i0);
        assert(flip_loss(h, x, i0) < h.loss_of(x));
        lemma_best_flip_unique(h, x);
        let j = choose|j: int| is_best_flip_at(h, x, j);
        lemma_hamming_flip(x, t, j);
    } else {
        assert forall|i: int| 0 <= i < x.len() implies #[trigger] flip_loss(h, x, i) >= h.loss_of(
            x,
        ) by {
            lemma_hamming_flip(x, t, i);
        }
        assert(x =~= t);
    }
}

/// From a vector at Hamming distance `d` from the target, the descent takes
/// exactly `d` strictly improving steps and ends at the target, the unique
/// local minimum; in particular from the complement of an `n`-bit target it
/// takes exactly `n` steps.
pub proof fn lemma_hamming_descent_exact(h: HammingState, x: Seq<bool>)
    requires
        x.len() == h.target_view().len(),
    ensures
        dgd_iter(h, x, hamming(x, h.target_view())) == h.target_view(),
        is_local_min_at(h, h.target_view()),
        forall|k: nat|
            k < hamming(x, h.target_view()) ==> !is_local_min_at(h, #[trigger] dgd_iter(h, x, k)),
{
    let t = h.target_view();
    let d = hamming(x, t);
    assert forall|k: nat| k <= d implies #[trigger] dgd_iter(h, x, k).len() == x.len() && hamming(
        dgd_iter(h, x, k),
        t,
    ) == d - k by {
        lemma_hamming_prefix(h, x, k);
    }
    assert forall|k: nat| k < d implies !is_local_min_at(h, #[trigger] dgd_iter(h, x, k)) by {
        lemma_hamming_prefix(h, x, k);
        lemma_hamming_step(h, dgd_iter(h, x, k));
    }
    lemma_hamming_prefix(h, x, d);
    lemma_hamming_step(h, dgd_iter(h, x, d));
    lemma_hamming_step(h, t);
}

proof fn lemma_hamming_prefix(h: HammingState, x: Seq<bool>, k: nat)
    requires
        x.len() == h.target_view().len(),
        k <= hamming(x, h.target_view()),
    ensures
        dgd_iter(h, x, k).len() == x.len(),
        hamming(dgd_iter(h, x, k), h.target_view()) == hamming(x, h.target_view()) - k,
    decreases k,
{
    if k > 0 {
        lemma_hamming_prefix(h, x, (k - 1) as nat);
        lemma_hamming_step(h, dgd_iter(h, x, (k - 1) as nat));
    }
}

} // verus!

verus! {

/// Sum of the weights `w[i]` of the set bits `x[i]` among the first `n` positions.
pub open spec fn weighted_sum(x: Seq<bool>, w: Seq<i64>, n: int) -> int
    decreases n,
{
    if n <= 0 {
        0
    } else {
        weighted_sum(x, w, n - 1) + (if x[n - 1] {
            w[n - 1] as int
        } else {
            0int
        })
    }
}

/// Sum of the absolute values of the first `n` weights.
pub open spec fn abs_weight_sum(w: Seq<i64>, n: int) -> int
    decreases n,
{
    if n <= 0 {
        0
    } else {
        abs_weight_sum(w, n - 1) + (if w[n - 1] < 0 {
            -(w[n - 1] as int)
        } else {
            w[n - 1] as int
        })
    }
}

/// A state whose loss is the sum of the weights of its set bits (bits past the
/// end of the shorter of the two vectors count for nothing).  Its local minima
/// set every negative weight and no positive one (see [`lemma_weighted_local_min`]).
#[derive(Clone, Debug)]
pub struct WeightedHammingState {
    pub state: Vec<bool>,
    pub weights: Vec<i64>,
}

/// The sum of the absolute weights grows with the prefix.
proof fn lemma_abs_weight_sum_mono(w: Seq<i64>, i: int, n: int)
    requires
        0 <= i <= n,
    ensures
        abs_weight_sum(w, i) <= abs_weight_sum(w, n),
    decreases n - i,
{
    if i < n {
        lemma_abs_weight_sum_mono(w, i, n - 1);
    }
}

impl DgdState for WeightedHammingState {
    /// One weight per bit, and the absolute weights sum within the score type.
    open spec fn wf(&self) -> bool {
        &&& self.state@.len() == self.weights@.len()
        &&& abs_weight_sum(self.weights@, self.weights@.len() as int) <= i64::MAX
    }

    open spec fn bits_view(&self) -> Seq<bool> {
        self.state@
    }

    open spec fn loss_of(&self, x: Seq<bool>) -> int {
        weighted_sum(x, self.weights@, if x.len() <= self.weights@.len() {
            x.len() as int
        } else {
            self.weights@.len() as int
        })
    }

    fn bits(&self) -> (n: usize) {
        self.state.len()
    }

    fn flip(&mut self, i: usize) {
        let b = self.state[i];
        self.state.set(i, !b);
    }

    fn score(&self) -> (r: i64) {
        let n = self.state.len();
        let mut total: i64 = 0;
        for i in 0..n
            invariant
                n == self.state@.len(),
                n == self.weights@.len(),
                abs_weight_sum(self.weights@, n as int) <= i64::MAX,
                total == weighted_sum(self.state@, self.weights@, i as int),
                -abs_weight_sum(self.weights@, i as int) <= total <= abs_weight_sum(self.weights@, i as int),
        {
            proof {
                lemma_abs_weight_sum_mono(self.weights@, i + 1, n as int);
            }
            if self.state[i] {
                total = total + self.weights[i];
            }
        }
        total
    }
}

/// Flipping position `i` moves the weighted sum by the weight of `i`: down if the
/// bit was set, up otherwise.
proof fn lemma_weighted_flip(x: Seq<bool>, w: Seq<i64>, i: int, n: int)
    requires
        x.len() == w.len(),
        0 <= i < x.len(),
        n <= x.len(),
    ensures
        weighted_sum(flip_bit(x, i), w, n) == (if n <= i {
            weighted_sum(x, w, n)
        } else if x[i] {
            weighted_sum(x, w, n) - w[i]
        } else {
            weighted_sum(x, w, n) + w[i]
        }),
    decreases n,
{
    if n > 0 {
        lemma_weighted_flip(x, w, i, n - 1);
    }
}

/// A full-length bit vector is a local minimum of the weighted loss exactly when
/// it sets every negative weight and no positive one.
pub proof fn lemma_weighted_local_min(s: WeightedHammingState, x: Seq<bool>)
    requires
        x.len() == s.weights@.len(),
    ensures
        is_local_min_at(s, x) <==> forall|i: int|
            0 <= i < x.len() ==> (if #[trigger] x[i] {
                s.weights@[i] <= 0
            } else {
                s.weights@[i] >= 0
            }),
{
    let w = s.weights@;
    assert forall|i: int| 0 <= i < x.len() implies #[trigger] flip_loss(s, x, i) == (if x[i] {
        s.loss_of(x) - w[i]
    } else {
        s.loss_of(x) + w[i]
    }) by {
        lemma_weighted_flip(x, w, i, x.len() as int);
    }
    if is_local_min_at(s, x) {
        assert forall|i: int| 0 <= i < x.len() implies (if #[trigger] x[i] {
            w[i] <= 0
        } else {
            w[i] >= 0
        }) by {
            assert(flip_loss(s, x, i) >= s.loss_of(x));
        }
    }
    if forall|i: int| 0 <= i < x.len() ==> (if #[trigger] x[i] {
        w[i] <= 0
    } else {
        w[i] >= 0
    }) {
        assert forall|i: int| 0 <= i < x.len() implies #[trigger] flip_loss(s, x, i) >= s.loss_of(x) by {
            assert(if x[i] {
                w[i] <= 0
            } else {
                w[i] >= 0
            });
        }
    }
}

} // verus!
