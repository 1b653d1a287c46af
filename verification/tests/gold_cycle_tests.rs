use bitrag::gold_cycle::{
    apply_nib_pos, bin_to_nib, gold_encode_signs, circ_xcorr_bin, circ_xcorr_i64, circ_xcorr_nib, gold_seq,
    m_seq_10, nibble_mutate_rng, to_bin_nib, to_nib_seq, top_k_shifts, u4_freq, Lcg64, DECIMATION,
    SEQ_LEN,
};

#[test]
fn m_sequence_has_full_length_and_signs() {
    let m = m_seq_10(0x09);
    assert_eq!(m.len(), 1023);
    assert!(m.iter().all(|&v| v == 1 || v == -1));
    // The start state 1 has bit 9 clear.
    assert_eq!(m[0], -1);
}

#[test]
fn m_sequence_of_x10_x3_1_is_balanced() {
    let m = m_seq_10(0x09);
    assert_eq!(m.iter().filter(|&&v| v == 1).count(), 512);
    assert_eq!(m.iter().filter(|&&v| v == -1).count(), 511);
    // State 1 needs nine shifts to reach bit 9.
    assert_eq!(&m[..12], &[-1, -1, -1, -1, -1, -1, -1, -1, -1, 1, -1, -1]);
}

#[test]
fn m_sequence_has_two_level_autocorrelation() {
    let m = m_seq_10(0x09);
    let c = circ_xcorr_bin(&m, &m);
    assert_eq!(c[0], 1023);
    assert!(c[1..].iter().all(|&v| v == -1));
}

#[test]
fn gold_sequence_sidelobes_are_bounded() {
    let g = gold_seq();
    let c = circ_xcorr_bin(&g, &g);
    assert_eq!(c[0], 1023);
    assert!(c[1..].iter().all(|&v| v == -65 || v == -1 || v == 63));
    assert_eq!(&g[..10], &[1, -1, 1, 1, 1, 1, -1, 1, 1, 1]);
}

#[test]
fn gold_sequence_is_product_with_decimation() {
    let m = m_seq_10(0x09);
    let g = gold_seq();
    assert_eq!(g.len(), 1023);
    for i in 0..1023 {
        assert_eq!(g[i], m[i] * m[(65 * i) % 1023]);
    }
}

#[test]
fn circular_xcorr_small() {
    assert_eq!(circ_xcorr_bin(&[1, -1], &[1, 1, -1]), vec![0, 2, -2]);
    assert_eq!(circ_xcorr_nib(&[1, 2], &[3]), vec![9]);
    assert_eq!(circ_xcorr_i64(&[], &[1, 2]), Vec::<i64>::new());
    assert_eq!(circ_xcorr_i64(&[1, 2], &[]), Vec::<i64>::new());
}

#[test]
fn top_shifts_are_a_stable_descending_sort() {
    assert_eq!(top_k_shifts(&[5, 7, 7, 1], 3), vec![1, 2, 0]);
    assert_eq!(top_k_shifts(&[5, 7, 7, 1], 10), vec![1, 2, 0, 3]);
    assert_eq!(top_k_shifts(&[], 3), Vec::<usize>::new());
}

#[test]
fn nibble_encoders() {
    assert_eq!(to_bin_nib(&[0x8F, 0x07]), vec![1, 1, -1, -1]);
    assert_eq!(to_nib_seq(&[0xAB, 0x01]), vec![0xA, 0xB, 0x0, 0x1]);
    assert_eq!(bin_to_nib(1), 8);
    assert_eq!(bin_to_nib(0), 8);
    assert_eq!(bin_to_nib(-1), 0);
}

#[test]
fn apply_nib_pos_replaces_one_nibble() {
    assert_eq!(apply_nib_pos(&[0xAB], 0, 0x3), vec![0x3B]);
    assert_eq!(apply_nib_pos(&[0xAB], 1, 0x3), vec![0xA3]);
    assert_eq!(apply_nib_pos(&[0xAB], 2, 0x3), vec![0xAB]);
}

#[test]
fn nibble_histogram() {
    let h = u4_freq(&[0x12, 0x21, 0xFF]);
    assert_eq!(h[1], 2);
    assert_eq!(h[2], 2);
    assert_eq!(h[15], 2);
    assert_eq!(h.iter().sum::<u32>(), 6);
}

#[test]
fn lcg_known_values() {
    let mut r = Lcg64::new(0);
    assert_eq!(r.next(), 7806831264735756412);
    let mut a = Lcg64::new(42);
    let mut b = Lcg64::new(42);
    for _ in 0..10 {
        assert_eq!(a.next(), b.next());
    }
    assert_eq!(a.next_usize(0), 0);
    assert_eq!(a.next_usize(7), b.next_usize(7));
    assert!(a.next_u4() < 16);
}

#[test]
fn mutation_follows_the_generator() {
    let src = vec![0x12u8, 0x34, 0x56];
    let mut rng = Lcg64::new(7);
    let (out, pos, upper, nib) = nibble_mutate_rng(&mut rng, &src);
    let mut check = Lcg64::new(7);
    assert_eq!(pos, check.next_usize(3));
    assert_eq!(upper, check.next_bit());
    assert_eq!(nib, check.next_u4());
    let mut expected = src.clone();
    if upper {
        expected[pos] = (expected[pos] & 0x0f) | (nib << 4);
    } else {
        expected[pos] = (expected[pos] & 0xf0) | nib;
    }
    assert_eq!(out, expected);
    assert_eq!(rng.next(), check.next());
}

#[test]
fn gold_phase_encoding_marks_mapped_phases() {
    let d = gold_encode_signs(&[0, 2, 9], &[1, 3, 1], &[1, -1, 1, -1]);
    assert_eq!(d, vec![0, -1, 0, 0]);
    assert_eq!(gold_encode_signs(&[], &[0], &[1, 1]), vec![0, 0]);
}

#[test]
fn decimation_is_prime_to_the_sequence_length() {
    fn gcd(a: usize, b: usize) -> usize {
        if b == 0 {
            a
        } else {
            gcd(b, a % b)
        }
    }
    assert_eq!(gcd(DECIMATION, SEQ_LEN), 1);
    assert_eq!(m_seq_10(0x09).len(), SEQ_LEN);
}
