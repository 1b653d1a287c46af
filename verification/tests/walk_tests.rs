use bitrag::walk::{BinField, GoldWalk, NibField, WalkConfig, WalkResult, WalkStrategy};

/// Number of nibbles in which `bytes` differs from `gold`.
fn nibble_distance(bytes: &[u8], gold: &[u8]) -> u32 {
    let mut d = 0;
    for (a, b) in bytes.iter().zip(gold.iter()) {
        if a >> 4 != b >> 4 {
            d += 1;
        }
        if a & 0x0f != b & 0x0f {
            d += 1;
        }
    }
    d
}

fn run<S: WalkStrategy>(buggy: &[u8], gold: &[u8], cfg: &WalkConfig) -> (WalkResult, usize) {
    let (mut w, mut bytes) = GoldWalk::<S>::start(buggy, gold, cfg);
    let mut checks = 0;
    loop {
        checks += 1;
        let h = nibble_distance(&bytes, gold);
        match w.step(h) {
            Some(b) => bytes = b,
            None => break,
        }
    }
    (w.finish(), checks)
}

fn check_chain(r: &WalkResult) {
    assert!(r.h_min <= r.h_start);
    assert_eq!(r.p1_accepts + r.p2_accepts, r.accept_details.len());
    let mut prev = r.h_start;
    for d in &r.accept_details {
        assert_eq!(d.2, prev);
        assert!(d.3 < d.2);
        prev = d.3;
    }
    assert_eq!(prev, r.h_min);
}

#[test]
fn nib_walk_reaches_the_gold_bytes() {
    let cfg = WalkConfig { top_k_shifts: 1, cands_per_shift: 16, phase2_trials: 3, seed: 1 };
    let gold = [0x12u8, 0x34];
    let (r, checks) = run::<NibField>(&[0x00, 0x00], &gold, &cfg);
    assert_eq!(r.h_start, 4);
    assert_eq!(r.h_min, 0);
    assert_eq!(r.best_bytes, gold.to_vec());
    assert_eq!(r.p1_accepts, 4);
    assert_eq!(r.p1_trials, 4);
    assert_eq!(r.p2_accepts, 0);
    assert_eq!(r.k_star, 3);
    assert_eq!(r.xcorr_peak, 0);
    assert_eq!(checks, 1 + 4 + 3);
    // The largest difference (4 at nibble 3) is tried first.
    assert_eq!(r.accept_details[0], (1, "Phase1-circ-nib(k=0)".to_string(), 4, 3));
    assert_eq!(r.accept_details[3], (4, "Phase1-circ-nib(k=0)".to_string(), 1, 0));
    check_chain(&r);
}

#[test]
fn bin_walk_keeps_a_descending_chain() {
    let cfg = WalkConfig { top_k_shifts: 4, cands_per_shift: 8, phase2_trials: 50, seed: 9 };
    let gold = [0x9Au8, 0x8B, 0x7C];
    let (r, _) = run::<BinField>(&[0x11, 0x22, 0x33], &gold, &cfg);
    check_chain(&r);
    assert_eq!(nibble_distance(&r.best_bytes, &gold), r.h_min);
    for d in &r.accept_details {
        assert!(d.1.starts_with("Phase1-circ(k=") || d.1 == "Phase2-random");
    }
}

#[test]
fn walk_without_trials_or_edits_checks_only_the_start() {
    let cfg = WalkConfig { top_k_shifts: 1, cands_per_shift: 4, phase2_trials: 0, seed: 0 };
    let (r, checks) = run::<NibField>(&[0x12, 0x34], &[0x12, 0x34], &cfg);
    assert_eq!(checks, 1);
    assert_eq!(r.h_start, 0);
    assert_eq!(r.h_min, 0);
    assert_eq!(r.p1_trials, 0);
    assert!(r.accept_details.is_empty());
}

#[test]
fn walk_with_empty_gold_goes_straight_to_random_trials() {
    let cfg = WalkConfig { top_k_shifts: 2, cands_per_shift: 4, phase2_trials: 5, seed: 3 };
    let (r, checks) = run::<BinField>(&[0x55], &[], &cfg);
    assert_eq!(checks, 1 + 5);
    assert_eq!(r.p1_trials, 0);
    assert_eq!(r.xcorr_peak, 0);
    assert_eq!(r.k_star, 0);
}

#[test]
fn phase1_trials_stay_within_shifts_times_edits() {
    let cfg = WalkConfig { top_k_shifts: 2, cands_per_shift: 1, phase2_trials: 0, seed: 7 };
    let gold = [0x12u8, 0x34, 0x56];
    let (r, _) = run::<BinField>(&[0x00, 0xff, 0x0f], &gold, &cfg);
    assert!(r.p1_trials <= cfg.top_k_shifts * cfg.cands_per_shift);
    assert!(r.h_min as usize + r.p1_accepts + r.p2_accepts <= r.h_start as usize);
    assert_eq!(r.p2_accepts, 0);
    let (r, _) = run::<NibField>(&[0x00, 0xff, 0x0f], &gold, &cfg);
    assert!(r.p1_trials <= 2);
    check_chain(&r);
}
