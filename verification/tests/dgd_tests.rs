use bitrag::dgd::{descend_one_step, descend_until_local_min, DgdState, HammingState, WeightedHammingState};

fn alternating(n: usize) -> Vec<bool> {
    (0..n).map(|i| i % 2 == 0).collect()
}

#[test]
fn hamming_score_zero_at_target() {
    let t = alternating(16);
    let s = HammingState::new(t.clone(), t);
    assert_eq!(s.score(), 0);
    assert_eq!(s.bits(), 16);
}

#[test]
fn descend_one_step_finds_single_off_bit() {
    let target = alternating(8);
    let mut state = target.clone();
    state[3] = !state[3];
    let mut s = HammingState::new(state, target);
    assert_eq!(s.score(), 1);
    assert!(descend_one_step(&mut s));
    assert_eq!(s.score(), 0);
}

#[test]
fn descend_one_step_returns_false_at_local_min() {
    let target = alternating(8);
    let mut s = HammingState::new(target.clone(), target);
    assert!(!descend_one_step(&mut s));
    assert_eq!(s.score(), 0);
}

#[test]
fn descend_until_local_min_converges_within_n_steps() {
    let n = 64;
    let target = alternating(n);
    let start: Vec<bool> = target.iter().map(|b| !b).collect();
    let mut s = HammingState::new(start, target);
    assert_eq!(s.score(), n as i64);
    let steps = descend_until_local_min(&mut s, 10 * n);
    assert_eq!(s.score(), 0, "must reach global minimum");
    assert_eq!(steps, n, "Hamming descent takes exactly n steps");
}

#[test]
fn loss_strictly_decreases_each_step() {
    let target = alternating(32);
    let start: Vec<bool> = (0..32).map(|i| i % 5 == 0).collect();
    let mut s = HammingState::new(start, target);
    let mut prev = s.score();
    while descend_one_step(&mut s) {
        let cur = s.score();
        assert!(
            cur < prev,
            "DGD loss must strictly decrease at every accepted step"
        );
        prev = cur;
    }
}

#[test]
fn weighted_loss_descends_to_no_negative_weight_set() {
    let weights: Vec<i64> = vec![3, -2, 5, -1, -7, 4];
    let state = vec![true, true, true, true, true, true];
    let mut s = WeightedHammingState { state, weights };
    descend_until_local_min(&mut s, 100);
    for (b, w) in s.state.iter().zip(s.weights.iter()) {
        assert_eq!(
            *b,
            *w < 0,
            "DGD must select exactly the negative-weight bits"
        );
    }
}

#[test]
fn hamming_state_exposes_its_bits() {
    let target = alternating(4);
    let start = vec![false, false, false, false];
    let mut s = HammingState::new(start, target.clone());
    assert_eq!(s.state(), &[false, false, false, false][..]);
    let steps = descend_until_local_min(&mut s, 10);
    assert_eq!(steps, 2);
    assert_eq!(s.state(), &target[..]);
}

#[test]
fn descent_stops_at_step_budget() {
    let n = 16;
    let target = alternating(n);
    let start: Vec<bool> = target.iter().map(|b| !b).collect();
    let mut s = HammingState::new(start, target);
    let steps = descend_until_local_min(&mut s, 5);
    assert_eq!(steps, 5);
    assert_eq!(s.score(), (n - 5) as i64);
}

#[test]
fn descent_flips_first_best_bit() {
    // Every off bit improves the loss by one; the first one is flipped.
    let target = vec![true, true, true];
    let mut s = HammingState::new(vec![false, true, false], target);
    assert!(descend_one_step(&mut s));
    assert_eq!(s.state(), &[true, true, false][..]);
}
