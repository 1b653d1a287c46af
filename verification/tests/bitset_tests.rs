use bitrag::bitset::{plane_weighted_count, set_positions, DocBits};

fn db(nw: usize, bits: &[usize]) -> DocBits {
    let mut d = DocBits::new(nw);
    for &i in bits {
        d.set(i);
    }
    d
}

#[test]
fn test_and_or_xor_andnot() {
    let a = db(2, &[0, 5, 70]);
    let b = db(2, &[5, 70, 100]);

    let collect = |d: &DocBits| -> Vec<usize> {
        let mut v = vec![];
        for w in 0..d.nw {
            let mut bits = d.words[w];
            while bits != 0 {
                let p = bits.trailing_zeros() as usize;
                v.push(w * 64 + p);
                bits &= bits - 1;
            }
        }
        v
    };
    assert_eq!(collect(&a.and(&b)), vec![5, 70]);
    assert_eq!(collect(&a.or(&b)), vec![0, 5, 70, 100]);
    assert_eq!(collect(&a.xor(&b)), vec![0, 100]);
    assert_eq!(collect(&a.andnot(&b)), vec![0]);
    assert_eq!(collect(&b.andnot(&a)), vec![100]);

    let r = a.and(&b);
    assert_eq!(r.nw, a.nw);
    assert_eq!(r.words.len(), a.nw);
}

#[test]
fn set_positions_lists_set_bits_in_order() {
    let a = db(2, &[100, 0, 63, 64]);
    assert_eq!(set_positions(&a.words), vec![0, 63, 64, 100]);
    assert_eq!(set_positions(&[]), Vec::<usize>::new());
}

#[test]
fn shift_right_moves_bits_down() {
    let a = db(2, &[0, 5, 70, 127]);
    // bit j of the result is bit j + 3 of the set
    assert_eq!(set_positions(&a.shift_right(3)), vec![2, 67, 124]);
    assert_eq!(set_positions(&a.shift_right(64)), vec![6, 63]);
    assert_eq!(set_positions(&a.shift_right(200)), Vec::<usize>::new());
}

#[test]
fn shift_left_moves_bits_up_and_drops_overflow() {
    let a = db(2, &[0, 5, 70, 127]);
    assert_eq!(set_positions(&a.shift_left(3)), vec![3, 8, 73]);
    assert_eq!(set_positions(&a.shift_left(64)), vec![64, 69]);
}

#[test]
fn xcorr_counts_shifted_overlaps() {
    let a = db(1, &[1, 5]);
    let b = db(1, &[0, 4, 9]);
    // k = +1 shifts b left by one: {1, 5, 10} shares {1, 5} with a.
    let x = a.xcorr(&b, 2);
    assert_eq!(x, vec![(-2, 0), (-1, 0), (0, 0), (1, 2), (2, 0)]);
}

#[test]
fn count_ones_counts_the_set() {
    let a = db(2, &[0, 5, 70, 127]);
    assert_eq!(a.count_ones(), 4);
    assert_eq!(DocBits::new(3).count_ones(), 0);
}

#[test]
fn set_is_idempotent() {
    let mut a = db(1, &[3]);
    a.set(3);
    assert_eq!(a.words[0], 1u64 << 3);
}

#[test]
fn overlap_counts_are_intersection_and_union_sizes() {
    let a = db(2, &[0, 5, 70]);
    let b = db(2, &[5, 70, 100]);
    assert_eq!(a.overlap_counts(&b), (2, 4));
    assert_eq!(a.overlap_counts(&DocBits::new(1)), (0, 2));
}

#[test]
fn xcorr_at_zero_is_intersection_count() {
    let a = db(2, &[0, 5, 70]);
    let b = db(2, &[5, 70, 100]);
    let x = a.xcorr(&b, 3);
    assert_eq!(x[3], (0, a.overlap_counts(&b).0));
}

#[test]
fn intersection_count_is_symmetric_and_bounded() {
    let a = db(2, &[0, 5, 70, 90]);
    let b = db(2, &[5, 70, 100]);
    let ab = a.overlap_counts(&b).0;
    assert_eq!(ab, b.overlap_counts(&a).0);
    assert!(ab <= a.count_ones());
    assert!(ab <= b.count_ones());
}

#[test]
fn plane_weighted_count_weights_planes_by_powers_of_two() {
    let s = vec![0b1111u64];
    let planes = vec![vec![0b0011u64], vec![0b0110u64], vec![0b1000u64]];
    // 1·2 + 2·2 + 4·1
    assert_eq!(plane_weighted_count(&s, &planes, 3), Some(10));
    assert_eq!(plane_weighted_count(&s, &planes, 0), Some(0));
    let big = vec![vec![u64::MAX; 1]; 32];
    assert_eq!(plane_weighted_count(&[u64::MAX], &big, 32), None);
}

#[test]
fn xcorr_is_symmetric_under_swap_and_negated_shift() {
    let a = db(2, &[1, 5, 63, 64, 100]);
    let b = db(2, &[0, 4, 9, 62, 65, 127]);
    let k = 70;
    let ab = a.xcorr(&b, k);
    let ba = b.xcorr(&a, k);
    assert_eq!(ab.len(), 2 * k + 1);
    for t in 0..=2 * k {
        assert_eq!(ab[t].0, -ba[2 * k - t].0);
        assert_eq!(ab[t].1, ba[2 * k - t].1);
    }
    // Shifting b left by one gives {1, 5, 10, 63, 66} (bit 127 moves out), sharing {1, 5, 63} with a.
    assert_eq!(ab[k + 1], (1, 3));
    assert_eq!(ba[k - 1], (-1, 3));
}
